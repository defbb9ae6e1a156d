//! Finds the next unpublished book of each of a list of authors in a bookstore's search
//! results and renders a date-grouped report of them.

pub mod authors;
pub mod cli;
pub mod customtypes;
pub mod text;
pub mod format;
pub mod scraper;
pub mod releases;
