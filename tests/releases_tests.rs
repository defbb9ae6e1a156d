use chrono::Datelike;
use upcoming_book_releases::customtypes::{ReleaseDate, UpcomingRelease};
use upcoming_book_releases::releases::{self, ReportError};

const AUTHOR_1: &str = "Brown, Dan";
const TITLE_1: &str = "Sakrileg";

const AUTHOR_2: &str = "King, Stephen";
const TITLE_2: &str = "Shining";

const AUTHOR_3: &str = "Rowling, J.K.";
const TITLE_3: &str = "Harry Potter and the Prisoner of Askaban";

fn date_of(t: chrono::DateTime<chrono::Utc>) -> ReleaseDate {
    ReleaseDate { year: t.year(), month: t.month(), day: t.day() }
}

fn release(author: &str, title: &str, year: i32, month: u32, day: u32) -> UpcomingRelease {
    UpcomingRelease::create(
        author.to_string(),
        title.to_string(),
        ReleaseDate { year, month, day },
    )
}

#[test]
fn test_release_file_creation() {
    let releases: Vec<UpcomingRelease> = vec![
        UpcomingRelease::create(
            AUTHOR_1.to_string(),
            TITLE_1.to_string(),
            date_of(chrono::Utc::now().checked_add_signed(chrono::Duration::days(3)).unwrap()),
        ),
        UpcomingRelease::create(
            AUTHOR_2.to_string(),
            TITLE_2.to_string(),
            date_of(chrono::Utc::now()),
        ),
        UpcomingRelease::create(
            AUTHOR_3.to_string(),
            TITLE_3.to_string(),
            date_of(chrono::Utc::now().checked_sub_signed(chrono::Duration::days(2)).unwrap()),
        ),
    ];

    let report = releases::release_report(releases);
    assert!(report.is_ok());
    let report = report.unwrap();

    let mut author_1_line_number: usize = 0;
    let mut author_2_line_number: usize = 0;
    let mut author_3_line_number: usize = 0;
    for (line_number, line_content) in report.lines().enumerate() {
        if line_content.contains(AUTHOR_1) {
            author_1_line_number = line_number + 1;
        }
        if line_content.contains(AUTHOR_2) {
            author_2_line_number = line_number + 1;
        }
        if line_content.contains(AUTHOR_3) {
            author_3_line_number = line_number + 1;
        }
    }

    assert_ne!(author_1_line_number, 0);
    assert_ne!(author_2_line_number, 0);
    assert_ne!(author_3_line_number, 0);

    assert!(author_1_line_number > author_2_line_number);
    assert!(author_1_line_number > author_3_line_number);
    assert!(author_2_line_number > author_3_line_number);
}

#[test]
fn test_releases_error_cases() {
    let empty_vector = Vec::new();
    assert!(releases::release_report(empty_vector).is_err());

    let missing_author: Vec<UpcomingRelease> = vec![UpcomingRelease::create(
        "".to_string(),
        TITLE_3.to_string(),
        date_of(chrono::Utc::now()),
    )];
    assert!(releases::release_report(missing_author).is_err());

    let missing_title: Vec<UpcomingRelease> = vec![UpcomingRelease::create(
        AUTHOR_2.to_string(),
        "".to_string(),
        date_of(chrono::Utc::now()),
    )];
    assert!(releases::release_report(missing_title).is_err());
}

#[test]
fn report_groups_releases_of_one_date() {
    let releases = vec![
        release("Dan Brown", "Sakrileg", 2024, 9, 30),
        release("Simon Beckett", "Knochenkälte", 2024, 9, 1),
        release("Ethan Cross", "Im Labyrinth der Rache", 2024, 9, 30),
    ];
    let rule = "-".repeat(83);
    let expected = format!(
        "Upcoming Book Releases\n\n1. September 2024\n{rule}\nSimon Beckett - \"Knochenkälte\"\n\n30. September 2024\n{rule}\nDan Brown - \"Sakrileg\"\nEthan Cross - \"Im Labyrinth der Rache\"\n"
    );
    assert_eq!(releases::release_report(releases).unwrap(), expected);
}

#[test]
fn report_of_no_releases_fails() {
    assert!(matches!(releases::release_report(Vec::new()), Err(ReportError::NoReleases)));
}

#[test]
fn report_names_the_first_flawed_release_by_date() {
    let releases = vec![
        release("Dan Brown", "", 2024, 10, 1),
        release("", "Shining", 2024, 9, 1),
    ];
    match releases::release_report(releases) {
        Err(ReportError::MissingAuthor(r)) => assert_eq!(r.title, "Shining"),
        other => panic!("unexpected {:?}", other),
    }
    let releases = vec![
        release("Dan Brown", "", 2024, 9, 1),
        release("", "Shining", 2024, 10, 1),
    ];
    match releases::release_report(releases) {
        Err(ReportError::MissingTitle(r)) => assert_eq!(r.author, "Dan Brown"),
        other => panic!("unexpected {:?}", other),
    }
}

#[test]
fn sort_is_stable_and_ascending() {
    let sorted = releases::sort_releases(vec![
        release("A", "a", 2025, 1, 1),
        release("B", "b", 2024, 12, 31),
        release("C", "c", 2025, 1, 1),
        release("D", "d", 2024, 1, 31),
    ]);
    let order: Vec<&str> = sorted.iter().map(|r| r.author.as_str()).collect();
    assert_eq!(order, vec!["D", "B", "A", "C"]);
}

#[test]
fn dates_are_rendered_in_german() {
    assert_eq!(
        releases::format_date(&ReleaseDate { year: 2024, month: 9, day: 30 }),
        "30. September 2024"
    );
    assert_eq!(
        releases::format_date(&ReleaseDate { year: 2025, month: 3, day: 1 }),
        "1. März 2025"
    );
    assert_eq!(releases::month_name_german(12), "Dezember");
    assert_eq!(releases::month_name_german(13), "Unknown");
    assert_eq!(releases::decimal_text(0), "0");
    assert_eq!(releases::decimal_text(4294967295), "4294967295");
    assert_eq!(releases::signed_decimal_text(-2147483648), "-2147483648");
}

#[test]
fn report_path_joins_directory_and_file() {
    assert_eq!(releases::release_path("/home", "releases"), "/home/releases");
}
