use upcoming_book_releases::customtypes::{ReleaseDate, SkipReason};
use upcoming_book_releases::releases;
use upcoming_book_releases::scraper::{self, Scrape, ScrapeError};

fn page(tiles: &[&str]) -> String {
    let mut html = String::from("<html><body>");
    for tile in tiles {
        html.push_str("<div class=\"inner-flex-container\">");
        html.push_str(tile);
        html.push_str("</div>");
    }
    html.push_str("</body></html>");
    html
}

const BROWN_TILE: &str = "\n  <span>Sakrileg</span>\n  <span>Dan Brown</span>\n\n  <span>Taschenbuch</span>\n  <span>Erscheint am 30.09.2024</span>\n";

#[test]
fn test_scraper_error_cases() {
    let empty_authors: Vec<String> = Vec::new();
    assert!(matches!(Scrape::start(empty_authors), Err(ScrapeError::EmptyAuthorList)));
}

#[test]
fn block_lines_are_trimmed_and_blank_ones_dropped() {
    assert_eq!(
        scraper::block_content("\n  Sakrileg \n\t\n Dan Brown\r\n\n"),
        "Sakrileg\nDan Brown"
    );
    assert_eq!(scraper::block_content(" \n \n"), "");
}

#[test]
fn match_block_reports_each_skip() {
    let cats = scraper::book_categories();
    let ok = "Sakrileg\nDan Brown\nTaschenbuch\nErscheint am 30.09.2024";
    let r = scraper::match_block(ok, "Dan Brown", Some(&cats)).unwrap();
    assert_eq!(r.author, "Dan Brown");
    assert_eq!(r.title, "Sakrileg");
    assert_eq!(r.date, ReleaseDate { year: 2024, month: 9, day: 30 });
    assert_eq!(
        scraper::match_block(ok, "Stephen King", Some(&cats)).err(),
        Some(SkipReason::AuthorNotFound)
    );
    let audio = "Sakrileg\nDan Brown\nHörbuch\nErscheint am 30.09.2024";
    assert_eq!(
        scraper::match_block(audio, "Dan Brown", Some(&cats)).err(),
        Some(SkipReason::CategoryMismatch)
    );
    assert!(scraper::match_block(audio, "Dan Brown", None).is_ok());
    let first = "Dan Brown\nTaschenbuch\nErscheint am 30.09.2024";
    assert_eq!(
        scraper::match_block(first, "Dan Brown", Some(&cats)).err(),
        Some(SkipReason::NoPrecedingTitle)
    );
    let undated = "Sakrileg\nDan Brown\nTaschenbuch";
    assert_eq!(
        scraper::match_block(undated, "Dan Brown", Some(&cats)).err(),
        Some(SkipReason::NoDatePattern)
    );
}

#[test]
fn search_url_joins_name_with_plus() {
    assert_eq!(
        scraper::search_url("Brown, Dan"),
        "https://www.weltbild.de/suche/Brown+Dan?jahr=0&node=%2Fbuecher&sprache=%2Flanguage%2Fger"
    );
}

#[test]
fn page_releases_come_from_the_first_three_tiles() {
    let html = page(&[BROWN_TILE, "<p>Dan Brown</p>", BROWN_TILE, BROWN_TILE]);
    let found = scraper::releases_in_page("Brown, Dan", &html);
    assert_eq!(found.len(), 2);
    assert_eq!(found[0].title, "Sakrileg");
    assert_eq!(found[0].author, "Dan Brown");
    assert!(scraper::releases_in_page("Brown", &html).is_empty());
    assert!(scraper::releases_in_page("Brown, Dan", "<html></html>").is_empty());
}

#[test]
fn failed_request_stops_the_run() {
    let mut run = Scrape::start(vec!["Brown, Dan".to_string()]).unwrap();
    match run.on_response(404, "") {
        Err(ScrapeError::RequestFailed { author, status }) => {
            assert_eq!(author, "Brown, Dan");
            assert_eq!(status, 404);
        }
        other => panic!("unexpected {:?}", other),
    }
    assert_eq!(run.next, 0);
}

#[test]
fn two_authors_one_release() {
    let authors = vec!["Brown, Dan".to_string(), "King, Stephen".to_string()];
    let mut run = Scrape::start(authors).unwrap();
    let url = run.next_url().unwrap();
    assert!(url.contains("Brown+Dan"));
    run.on_response(200, &page(&[BROWN_TILE])).unwrap();
    let url = run.next_url().unwrap();
    assert!(url.contains("King+Stephen"));
    run.on_response(200, &page(&["<p>Keine Treffer</p>"])).unwrap();
    assert!(run.next_url().is_none());
    let found = run.into_releases();
    assert_eq!(found.len(), 1);
    let report = releases::release_report(found).unwrap();
    assert!(report.contains("30. September 2024"));
    assert!(report.contains("Dan Brown - \"Sakrileg\""));
    assert!(!report.contains("King"));
}
