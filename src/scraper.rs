//! Turns the search-result pages of the bookstore into upcoming releases, one author at a time.
//!
//! The requests themselves are made by the caller: a [`Scrape`] says which page to fetch next and
//! takes in each response.

use crate::customtypes::{ReleaseView, SkipReason, UpcomingRelease};
use crate::format::{
    format_author_name, format_release_date, format_release_title, normalized_name, release_date,
    release_title,
};
use crate::text::{
    are_line_bounds, contains_text, has_substring, join_lines, line_bounds, split_lines, trim,
    trimmed_bounds,
};
use vstd::prelude::*;
use vstd::string::*;

verus! {

/// The trimmed lines of `ls` that are not blank.
pub open spec fn kept_lines(ls: Seq<Seq<char>>) -> Seq<Seq<char>>
    decreases ls.len(),
{
    if ls.len() == 0 {
        ls
    } else {
        let before = kept_lines(ls.drop_last());
        if trim(ls.last()).len() > 0 {
            before.push(trim(ls.last()))
        } else {
            before
        }
    }
}

/// The text of a result block: its lines trimmed, the blank ones dropped, joined by newlines.
pub open spec fn block_text(raw: Seq<char>) -> Seq<char> {
    join_lines(kept_lines(split_lines(raw)))
}

/// Reduces the raw text of a result block to its trimmed, non-blank lines.
pub fn block_content(raw: &str) -> (r: String)
    ensures
        r@ == block_text(raw@),
{
    let bounds = line_bounds(raw);
    let ghost lines = split_lines(raw@);
    let mut out = String::new();
    let mut k: usize = 0;
    assert(lines.take(0) == Seq::<Seq<char>>::empty());
    while k < bounds.len()
        invariant
            are_line_bounds(raw@, bounds@),
            lines == split_lines(raw@),
            k <= bounds@.len(),
            out@ == join_lines(kept_lines(lines.take(k as int))),
            (out@.len() == 0) == (kept_lines(lines.take(k as int)).len() == 0),
        decreases bounds@.len() - k,
    {
        let ghost before = lines.take(k as int);
        let ghost kept = kept_lines(before);
        assert(lines.take(k + 1) == before.push(lines[k as int]));
        assert(lines.take(k + 1).drop_last() == before);
        let (a, b) = trimmed_bounds(raw, bounds[k].0, bounds[k].1);
        if a < b {
            let ghost line = trim(lines[k as int]);
            assert(kept_lines(lines.take(k + 1)) == kept.push(line));
            assert(kept.push(line).drop_last() == kept);
            if out.unicode_len() > 0 {
                out.append("\n");
                proof {
                    reveal_strlit("\n");
                }
            }
            out.append(raw.substring_char(a, b));
            proof {
                if kept.len() == 0 {
                    assert(out@ == line);
                }
            }
        }
        k = k + 1;
    }
    assert(lines.take(bounds@.len() as int) == lines);
    out
}

/// The categories that mark a printed book.
pub open spec fn book_categories_spec() -> Seq<Seq<char>> {
    seq!["Taschenbuch"@, "Buch"@]
}

/// The categories that mark a printed book: paperback or book.
pub fn book_categories() -> (r: Vec<String>)
    ensures
        r.deep_view() == book_categories_spec(),
{
    let mut v: Vec<String> = Vec::new();
    v.push(String::from_str("Taschenbuch"));
    v.push(String::from_str("Buch"));
    assert(v.deep_view() == book_categories_spec());
    v
}

/// The mathematical value of an optional list of categories.
pub open spec fn categories_view(categories: Option<&Vec<String>>) -> Option<Seq<Seq<char>>> {
    match categories {
        Some(c) => Some(c.deep_view()),
        None => None,
    }
}

/// Whether `content` names one of `categories`.
pub open spec fn names_category(content: Seq<char>, categories: Seq<Seq<char>>) -> bool {
    exists|k: int| 0 <= k < categories.len() && has_substring(content, #[trigger] categories[k])
}

/// The release that a block's text announces for `author`, or why it announces none.
pub open spec fn block_release(
    content: Seq<char>,
    author: Seq<char>,
    categories: Option<Seq<Seq<char>>>,
) -> Result<ReleaseView, SkipReason> {
    if !has_substring(content, author) {
        Err(SkipReason::AuthorNotFound)
    } else if categories matches Some(c) && !names_category(content, c) {
        Err(SkipReason::CategoryMismatch)
    } else {
        match release_title(content, author) {
            Err(e) => Err(e),
            Ok(title) => match release_date(content) {
                Err(e) => Err(e),
                Ok(date) => Ok(ReleaseView { author, title, date }),
            },
        }
    }
}

/// An executable result of matching stands for the mathematical one.
pub open spec fn release_result(r: Result<UpcomingRelease, SkipReason>) -> Result<
    ReleaseView,
    SkipReason,
> {
    match r {
        Ok(x) => Ok(x@),
        Err(e) => Err(e),
    }
}

/// Decides whether a block's text is an upcoming release of `author` (a normalized name) and
/// extracts it; when `categories` is given, the text must name one of them.
pub fn match_block(content: &str, author: &str, categories: Option<&Vec<String>>) -> (r: Result<
    UpcomingRelease,
    SkipReason,
>)
    ensures
        release_result(r) == block_release(content@, author@, categories_view(categories)),
{
    if !contains_text(content, author) {
        return Err(SkipReason::AuthorNotFound);
    }
    if let Some(cats) = categories {
        let mut found = false;
        let mut k: usize = 0;
        while k < cats.len() && !found
            invariant
                k <= cats@.len(),
                found ==> names_category(content@, cats.deep_view()),
                !found ==> forall|q: int|
                    0 <= q < k ==> !has_substring(content@, #[trigger] cats.deep_view()[q]),
            decreases cats@.len() - k,
        {
            assert(cats.deep_view()[k as int] == cats@[k as int]@);
            if contains_text(content, cats[k].as_str()) {
                found = true;
            }
            k = k + 1;
        }
        if !found {
            return Err(SkipReason::CategoryMismatch);
        }
    }
    let title = match format_release_title(content, author) {
        Ok(t) => t,
        Err(e) => {
            return Err(e);
        },
    };
    let date = match format_release_date(content) {
        Ok(d) => d,
        Err(e) => {
            return Err(e);
        },
    };
    Ok(UpcomingRelease::create(String::from_str(author), title, date))
}

/// At most this many result blocks are looked at per author.
pub const MAX_BLOCKS: usize = 3;

/// The mathematical values of a sequence of releases.
pub open spec fn release_views(rs: Seq<UpcomingRelease>) -> Seq<ReleaseView> {
    rs.map_values(|r: UpcomingRelease| r@)
}

/// The releases found in the blocks `bs` for the normalized name `name`, in block order.
pub open spec fn matched_releases(name: Seq<char>, bs: Seq<Seq<char>>) -> Seq<ReleaseView>
    decreases bs.len(),
{
    if bs.len() == 0 {
        Seq::empty()
    } else {
        let before = matched_releases(name, bs.drop_last());
        match block_release(block_text(bs.last()), name, Some(book_categories_spec())) {
            Ok(r) => before.push(r),
            Err(_) => before,
        }
    }
}

/// The releases of `author` ("Surname, Forename") among the first blocks of a page; none if the
/// name cannot be normalized.
pub open spec fn releases_of_blocks(author: Seq<char>, blocks: Seq<Seq<char>>) -> Seq<ReleaseView> {
    match normalized_name(author) {
        None => Seq::empty(),
        Some(name) => matched_releases(
            name,
            blocks.take(if blocks.len() < MAX_BLOCKS { blocks.len() as int } else { MAX_BLOCKS as int }),
        ),
    }
}

/// The upcoming printed books of `author` ("Surname, Forename") among the raw texts of the first
/// result blocks of a page.
pub fn releases_from_blocks(author: &str, blocks: &Vec<String>) -> (r: Vec<UpcomingRelease>)
    ensures
        release_views(r@) == releases_of_blocks(author@, blocks.deep_view()),
{
    let mut out: Vec<UpcomingRelease> = Vec::new();
    let name = match format_author_name(author) {
        Ok(n) => n,
        Err(_) => {
            assert(release_views(out@) == Seq::<ReleaseView>::empty());
            return out;
        },
    };
    let limit = if blocks.len() < MAX_BLOCKS {
        blocks.len()
    } else {
        MAX_BLOCKS
    };
    let cats = book_categories();
    let ghost bs = blocks.deep_view();
    let mut k: usize = 0;
    assert(bs.take(0) == Seq::<Seq<char>>::empty());
    assert(release_views(out@) == Seq::<ReleaseView>::empty());
    while k < limit
        invariant
            limit <= blocks@.len(),
            k <= limit,
            bs == blocks.deep_view(),
            cats.deep_view() == book_categories_spec(),
            normalized_name(author@) == Some(name@),
            release_views(out@) == matched_releases(name@, bs.take(k as int)),
        decreases limit - k,
    {
        let ghost before = bs.take(k as int);
        assert(bs.take(k + 1) == before.push(bs[k as int]));
        assert(bs.take(k + 1).drop_last() == before);
        assert(bs[k as int] == blocks@[k as int]@);
        let content = block_content(blocks[k].as_str());
        match match_block(content.as_str(), name.as_str(), Some(&cats)) {
            Ok(rel) => {
                let ghost old_out = out@;
                out.push(rel);
                assert(release_views(out@) == release_views(old_out).push(rel@));
            },
            Err(_) => {},
        }
        k = k + 1;
    }
    out
}

proof fn lemma_matched_releases(name: Seq<char>, bs: Seq<Seq<char>>)
    ensures
        forall|k: int|
            0 <= k < matched_releases(name, bs).len() ==> (#[trigger] matched_releases(
                name,
                bs,
            )[k]).author == name,
        (forall|k: int| 0 <= k < bs.len() ==> !has_substring(block_text(#[trigger] bs[k]), name))
            ==> matched_releases(name, bs).len() == 0,
    decreases bs.len(),
{
    if bs.len() > 0 {
        lemma_matched_releases(name, bs.drop_last());
        let before = matched_releases(name, bs.drop_last());
        let found = block_release(block_text(bs.last()), name, Some(book_categories_spec()));
        if let Ok(r) = found {
            assert(r.author == name);
            assert forall|k: int| 0 <= k < before.len() + 1 implies (#[trigger] before.push(
                r,
            )[k]).author == name by {
                if k < before.len() {
                    assert(before.push(r)[k] == before[k]);
                }
            }
        }
        if forall|k: int| 0 <= k < bs.len() ==> !has_substring(block_text(#[trigger] bs[k]), name) {
            assert forall|k: int| 0 <= k < bs.drop_last().len() implies !has_substring(
                block_text(#[trigger] bs.drop_last()[k]),
                name,
            ) by {
                assert(bs.drop_last()[k] == bs[k]);
            }
            assert(!has_substring(block_text(bs[bs.len() - 1]), name));
        }
    }
}

/// Every release found among a page's blocks is attributed to the author's normalized name, and
/// blocks none of which names the author yield no release.
pub proof fn lemma_releases_belong_to_author(author: Seq<char>, blocks: Seq<Seq<char>>)
    ensures
        forall|k: int|
            0 <= k < releases_of_blocks(author, blocks).len() ==> normalized_name(author) == Some(
                (#[trigger] releases_of_blocks(author, blocks)[k]).author,
            ),
        (forall|k: int|
            0 <= k < blocks.len() ==> !(normalized_name(author) matches Some(name)
                && has_substring(block_text(#[trigger] blocks[k]), name)))
            ==> releases_of_blocks(author, blocks).len() == 0,
{
    if let Some(name) = normalized_name(author) {
        let n = if blocks.len() < MAX_BLOCKS {
            blocks.len() as int
        } else {
            MAX_BLOCKS as int
        };
        let first = blocks.take(n);
        lemma_matched_releases(name, first);
        if forall|k: int|
            0 <= k < blocks.len() ==> !(normalized_name(author) matches Some(name)
                && has_substring(block_text(#[trigger] blocks[k]), name)) {
            assert forall|k: int| 0 <= k < first.len() implies !has_substring(
                block_text(#[trigger] first[k]),
                name,
            ) by {
                assert(first[k] == blocks[k]);
            }
        }
    }
}

/// Every release found on an author's search-result page is attributed to the author's
/// normalized name.
pub proof fn lemma_page_releases_belong_to_author(author: Seq<char>, page: Seq<char>)
    ensures
        forall|k: int|
            0 <= k < page_releases(author, page).len() ==> normalized_name(author) == Some(
                (#[trigger] page_releases(author, page)[k]).author,
            ),
{
    if let Some(blocks) = selected_texts(page, RESULT_TILE@) {
        lemma_releases_belong_to_author(author, blocks);
    }
}

/// Elements of a result page that hold one search result each.
pub const RESULT_TILE: &'static str = "div.inner-flex-container";

/// The texts of the elements of the HTML document `page` that match the CSS `selector`, in the
/// order in which scraper's `select` yields them, each the concatenation of its text nodes;
/// `None` if `selector` does not parse.
pub uninterp spec fn selected_texts(page: Seq<char>, selector: Seq<char>) -> Option<Seq<Seq<char>>>;

/// Relies on the scraper crate: Selector::parse (an error gives `None`), Html::parse_document,
/// Html::select and ElementRef::text. The result depends on the two strings alone.
#[verifier::external_body]
fn element_texts(page: &str, selector: &str) -> (r: Option<Vec<String>>)
    ensures
        match r {
            Some(v) => selected_texts(page@, selector@) == Some(v.deep_view()),
            None => selected_texts(page@, selector@) is None,
        },
{
    let selector = match scraper::Selector::parse(selector) {
        Ok(s) => s,
        Err(_) => return None,
    };
    let document = scraper::Html::parse_document(page);
    let mut texts = Vec::new();
    for element in document.select(&selector) {
        texts.push(element.text().collect::<String>());
    }
    Some(texts)
}

/// The upcoming releases of `author` that a search-result page shows.
pub open spec fn page_releases(author: Seq<char>, page: Seq<char>) -> Seq<ReleaseView> {
    match selected_texts(page, RESULT_TILE@) {
        Some(blocks) => releases_of_blocks(author, blocks),
        None => Seq::empty(),
    }
}

/// Extracts the upcoming releases of `author` ("Surname, Forename") from a search-result page.
pub fn releases_in_page(author: &str, page: &str) -> (r: Vec<UpcomingRelease>)
    ensures
        release_views(r@) == page_releases(author@, page@),
{
    match element_texts(page, RESULT_TILE) {
        Some(blocks) => releases_from_blocks(author, &blocks),
        None => {
            let out: Vec<UpcomingRelease> = Vec::new();
            assert(release_views(out@) == Seq::<ReleaseView>::empty());
            out
        },
    }
}

/// The search path of the bookstore; the author's name follows it.
pub const SEARCH_BASE: &'static str = "https://www.weltbild.de/suche/";

/// The filters of a search: this year's titles, books only, in German.
pub const SEARCH_FILTERS: &'static str = "?jahr=0&node=%2Fbuecher&sprache=%2Flanguage%2Fger";

/// `s` with each ", " replaced by "+", from left to right.
pub open spec fn plus_joined(s: Seq<char>) -> Seq<char>
    decreases s.len(),
{
    if s.len() == 0 {
        s
    } else if s.len() >= 2 && s[0] == ',' && s[1] == ' ' {
        seq!['+'] + plus_joined(s.skip(2))
    } else {
        seq![s[0]] + plus_joined(s.skip(1))
    }
}

/// The address of the search for `author` ("Surname, Forename").
pub open spec fn search_url_of(author: Seq<char>) -> Seq<char> {
    SEARCH_BASE@ + plus_joined(author) + SEARCH_FILTERS@
}

/// Builds the address of the search for `author` ("Surname, Forename").
pub fn search_url(author: &str) -> (r: String)
    ensures
        r@ == search_url_of(author@),
{
    let n = author.unicode_len();
    let mut url = String::from_str(SEARCH_BASE);
    let mut i: usize = 0;
    assert(author@.skip(0) == author@);
    while i < n
        invariant
            n == author@.len(),
            i <= n,
            url@ + plus_joined(author@.skip(i as int)) == SEARCH_BASE@ + plus_joined(author@),
        decreases n - i,
    {
        let ghost rest = author@.skip(i as int);
        if i + 1 < n && author.get_char(i) == ',' && author.get_char(i + 1) == ' ' {
            assert(rest.skip(2) == author@.skip(i + 2));
            url.append("+");
            proof {
                reveal_strlit("+");
                assert(url@ + plus_joined(author@.skip(i + 2)) == (url@.drop_last() + seq!['+'])
                    + plus_joined(rest.skip(2)));
            }
            i = i + 2;
        } else {
            assert(rest.skip(1) == author@.skip(i + 1));
            let c = author.substring_char(i, i + 1);
            assert(c@ == seq![rest[0]]);
            url.append(c);
            i = i + 1;
        }
    }
    assert(author@.skip(n as int) == Seq::<char>::empty());
    url.append(SEARCH_FILTERS);
    url
}

/// Why a run over the authors stops.
#[derive(Debug)]
pub enum ScrapeError {
    /// There is no author to look for.
    EmptyAuthorList,
    /// The search for an author did not succeed; the author and the status code are attached.
    RequestFailed { author: String, status: u16 },
}

/// Whether an HTTP status code reports success.
pub open spec fn is_success_status(status: u16) -> bool {
    200 <= status < 300
}

/// A run over a list of authors: the next author to look for and the releases found so far.
pub struct Scrape {
    pub authors: Vec<String>,
    pub next: usize,
    pub releases: Vec<UpcomingRelease>,
}

impl Scrape {
    /// The next author is one of the list, or the run is over.
    pub open spec fn wf(&self) -> bool {
        self.next <= self.authors@.len()
    }

    /// Starts a run over `authors`; an empty list is refused.
    pub fn start(authors: Vec<String>) -> (r: Result<Scrape, ScrapeError>)
        ensures
            authors@.len() == 0 <==> r is Err,
            r matches Err(e) ==> e is EmptyAuthorList,
            r matches Ok(s) ==> s.wf() && s.authors == authors && s.next == 0 && s.releases@.len()
                == 0,
    {
        if authors.len() == 0 {
            return Err(ScrapeError::EmptyAuthorList);
        }
        Ok(Scrape { authors, next: 0, releases: Vec::new() })
    }

    /// The address to fetch next, or `None` once every author has been looked for.
    pub fn next_url(&self) -> (r: Option<String>)
        requires
            self.wf(),
        ensures
            self.next < self.authors@.len() ==> (r matches Some(u) && u@ == search_url_of(
                self.authors@[self.next as int]@,
            )),
            self.next == self.authors@.len() ==> r is None,
    {
        if self.next < self.authors.len() {
            Some(search_url(self.authors[self.next].as_str()))
        } else {
            None
        }
    }

    /// Takes in the response to the request for the current author: its status code and body.
    /// A successful response adds the releases on the page and moves to the next author; any
    /// other status stops the run.
    pub fn on_response(&mut self, status: u16, body: &str) -> (r: Result<(), ScrapeError>)
        requires
            old(self).wf(),
            old(self).next < old(self).authors@.len(),
        ensures
            final(self).wf(),
            is_success_status(status) <==> r is Ok,
            r is Ok ==> final(self).authors == old(self).authors && final(self).next == old(self).next
                + 1 && release_views(final(self).releases@) == release_views(old(self).releases@)
                + page_releases(old(self).authors@[old(self).next as int]@, body@),
            r matches Err(e) ==> *final(self) == *old(self) && (e matches ScrapeError::RequestFailed {
                author,
                status: s,
            } && author@ == old(self).authors@[old(self).next as int]@ && s == status),
    {
        let author = self.authors[self.next].as_str();
        if !(200 <= status && status < 300) {
            return Err(ScrapeError::RequestFailed { author: String::from_str(author), status });
        }
        let found = releases_in_page(author, body);
        let total = self.authors.len();
        let mut k: usize = 0;
        let ghost start = self.releases@;
        while k < found.len()
            invariant
                k <= found@.len(),
                release_views(self.releases@) == release_views(start) + release_views(
                    found@.take(k as int),
                ),
                self.next == old(self).next,
                self.authors == old(self).authors,
                self.next < self.authors@.len(),
                total == self.authors@.len(),
            decreases found@.len() - k,
        {
            assert(found@.take(k + 1) == found@.take(k as int).push(found@[k as int]));
            let r = &found[k];
            let ghost before = self.releases@;
            self.releases.push(
                UpcomingRelease::create(r.author.clone(), r.title.clone(), r.date),
            );
            assert(release_views(self.releases@) == release_views(before).push(found@[k as int]@));
            k = k + 1;
        }
        assert(found@.take(found@.len() as int) == found@);
        self.next = self.next + 1;
        Ok(())
    }

    /// Ends the run and hands over the releases found, in the order they were found.
    pub fn into_releases(self) -> (r: Vec<UpcomingRelease>)
        ensures
            r == self.releases,
    {
        self.releases
    }
}

} // verus!
