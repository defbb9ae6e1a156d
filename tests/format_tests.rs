use upcoming_book_releases::customtypes::{ReleaseDate, SkipReason};
use upcoming_book_releases::format::{
    format_author_name, format_release_date, format_release_title, NameError,
};

const AUTHOR_1: &str = "Beckett, Simon";
const AUTHOR_2: &str = "Cross, Ethan";
const AUTHOR_3: &str = "King, Stephen";
const FORMATTED_AUTHOR_1: &str = "Simon Beckett";
const FORMATTED_AUTHOR_2: &str = "Ethan Cross";
const FORMATTED_AUTHOR_3: &str = "Stephen King";
const HTML_STRING_1: &str = "Bd. 7\nKnochenkälte / David Hunter Bd.7\nSimon Beckett\n0 Sterne\nBuch (Gebunden)\n26.00 €\nVorbestellen\nErscheint am 30.09.2024";
const HTML_STRING_2: &str = "Im Labyrinth der Rache\nEthan Cross\n0 Sterne\nTaschenbuch\n13.00 €\nVorbestellen\nErscheint am 30.08.2024";
const RELEASE_TITLE_1: &str = "Knochenkälte / David Hunter Bd.7";
const RELEASE_TITLE_2: &str = "Im Labyrinth der Rache";
const HTML_STRING_WRONG_FORMAT_TITLE: &str =
    "Simon Beckett\n0 Sterne\nBuch (Gebunden)\n26.00 €\nVorbestellen\nErscheint am 30.09.2024";
const HTML_STRING_WRONG_FORMAT_DATE_1: &str = "Bd. 7\nKnochenkälte / David Hunter Bd.7\nSimon Beckett\n0 Sterne\nBuch (Gebunden)\n26.00 €\nVorbestellen\nErschienen am 30.09.2024";
const HTML_STRING_WRONG_FORMAT_DATE_2: &str = "Bd. 7\nKnochenkälte / David Hunter Bd.7\nSimon Beckett\n0 Sterne\nBuch (Gebunden)\n26.00 €\nVorbestellen\nErscheint am 99.99.999999";

fn as_chrono(d: ReleaseDate) -> chrono::DateTime<chrono::Utc> {
    let naive = chrono::NaiveDate::from_ymd_opt(d.year, d.month, d.day).unwrap();
    chrono::DateTime::<chrono::Utc>::from_naive_utc_and_offset(
        naive.and_hms_opt(0, 0, 0).unwrap(),
        chrono::Utc,
    )
}

#[test]
fn test_format_author_name() {
    assert_eq!(format_author_name(AUTHOR_1).unwrap(), FORMATTED_AUTHOR_1);
    assert_eq!(format_author_name(AUTHOR_2).unwrap(), FORMATTED_AUTHOR_2);
    assert_eq!(format_author_name(AUTHOR_3).unwrap(), FORMATTED_AUTHOR_3);
}

#[test]
fn test_format_release_title() {
    assert_eq!(
        format_release_title(HTML_STRING_1, FORMATTED_AUTHOR_1).unwrap(),
        RELEASE_TITLE_1
    );
    assert_eq!(
        format_release_title(HTML_STRING_2, FORMATTED_AUTHOR_2).unwrap(),
        RELEASE_TITLE_2
    );
}

#[test]
fn test_format_release_date() {
    let naive_date = chrono::NaiveDate::from_ymd_opt(2024, 9, 30);
    let naive_datetime = chrono::NaiveDateTime::new(
        naive_date.unwrap(),
        chrono::NaiveTime::from_hms_opt(0, 0, 0).unwrap(),
    );
    let release_date_1 =
        chrono::DateTime::<chrono::Utc>::from_naive_utc_and_offset(naive_datetime, chrono::Utc);

    let naive_date = chrono::NaiveDate::from_ymd_opt(2024, 8, 30);
    let naive_datetime = chrono::NaiveDateTime::new(
        naive_date.unwrap(),
        chrono::NaiveTime::from_hms_opt(0, 0, 0).unwrap(),
    );
    let release_date_2 =
        chrono::DateTime::<chrono::Utc>::from_naive_utc_and_offset(naive_datetime, chrono::Utc);

    assert_eq!(as_chrono(format_release_date(HTML_STRING_1).unwrap()), release_date_1);
    assert_eq!(as_chrono(format_release_date(HTML_STRING_2).unwrap()), release_date_2);
}

#[test]
fn test_format_error_cases() {
    assert!(format_author_name("").is_err());
    assert!(format_release_title(HTML_STRING_WRONG_FORMAT_TITLE, FORMATTED_AUTHOR_1).is_err());
    assert!(format_release_title(HTML_STRING_1, "").is_err());
    assert!(format_release_date(HTML_STRING_WRONG_FORMAT_DATE_1).is_err());
    assert!(format_release_date(HTML_STRING_WRONG_FORMAT_DATE_2).is_err());
}

#[test]
fn normalize_swaps_surname_and_forename() {
    assert_eq!(format_author_name("Brown, Dan").unwrap(), "Dan Brown");
    assert_eq!(format_author_name("Rowling, J.K.").unwrap(), "J.K. Rowling");
    assert_eq!(format_author_name("Le Carré, John").unwrap(), "John Le Carré");
}

#[test]
fn normalize_rejects_other_shapes() {
    for bad in ["Brown", "Brown,Dan", "Brown, Dan, Jr.", ", , ", "Dan Brown"] {
        match format_author_name(bad) {
            Err(NameError::NotNormalizable(name)) => assert_eq!(name, bad),
            Ok(n) => panic!("{} was normalized to {}", bad, n),
        }
    }
}

#[test]
fn title_is_the_line_before_the_author() {
    assert_eq!(
        format_release_title("T\nAuthor\nmore", "Author").unwrap(),
        "T"
    );
    assert_eq!(
        format_release_title("\n\nT\n\nAuthor\nAuthor", "Author").unwrap(),
        "T"
    );
}

#[test]
fn title_missing_before_first_line() {
    assert_eq!(
        format_release_title("Author\nT", "Author"),
        Err(SkipReason::NoPrecedingTitle)
    );
    assert_eq!(
        format_release_title("T\nSomeone", "Author"),
        Err(SkipReason::AuthorLineNotFound)
    );
}

#[test]
fn date_after_marker_is_parsed() {
    assert_eq!(
        format_release_date("x\nErscheint am 30.09.2024"),
        Ok(ReleaseDate { year: 2024, month: 9, day: 30 })
    );
    assert_eq!(
        format_release_date("Erscheint am 29.02.2024\nErscheint am 01.01.2025"),
        Ok(ReleaseDate { year: 2024, month: 2, day: 29 })
    );
}

#[test]
fn date_errors() {
    assert_eq!(
        format_release_date("Erscheint am 99.99.999999"),
        Err(SkipReason::UnparsableDate)
    );
    assert_eq!(
        format_release_date("Erschienen am 30.09.2024"),
        Err(SkipReason::NoDatePattern)
    );
    assert_eq!(
        format_release_date("Erscheint am \n30.09.2024"),
        Err(SkipReason::NoDatePattern)
    );
    assert_eq!(
        format_release_date("Erscheint am 1.9.2024"),
        Err(SkipReason::UnparsableDate)
    );
    assert_eq!(
        format_release_date("Erscheint am 29.02.2023"),
        Err(SkipReason::UnparsableDate)
    );
    assert_eq!(
        format_release_date("Erscheint am 31.04.2024"),
        Err(SkipReason::UnparsableDate)
    );
    assert_eq!(
        format_release_date("Erscheint am 30.09.2024 (vorläufig)"),
        Err(SkipReason::UnparsableDate)
    );
}

#[test]
fn normalized_name_is_found_as_a_line() {
    let name = format_author_name("Brown, Dan").unwrap();
    assert_eq!(name, "Dan Brown");
    let block = "Sakrileg\nDan Brown\nTaschenbuch\nErscheint am 30.09.2024";
    assert_eq!(format_release_title(block, &name).unwrap(), "Sakrileg");
}
