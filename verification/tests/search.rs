use kml_walks::{searched_length, DecodeError};
use regex::Regex;

fn found(pattern: &str, haystack: &str) -> Result<Vec<Vec<char>>, regex::Error> {
    let compiled = Regex::new(pattern)?;
    Ok(compiled.find_iter(haystack).map(|found| found.as_str().chars().collect()).collect())
}

#[test]
fn rejected_pattern_is_reported() {
    let rejected = found("[0-9", "4 miles");
    assert!(rejected.is_err());
    assert_eq!(searched_length(rejected), Err(DecodeError::PatternRejected));
}

#[test]
fn tokens_of_a_search_give_the_length() {
    assert_eq!(searched_length(Ok(vec![vec!['4'], vec!['6', '½']])), Ok(650));
    assert_eq!(searched_length(Ok(vec![])), Ok(0));
}

#[test]
fn bad_token_of_a_search_gives_its_error() {
    assert_eq!(
        searched_length(Ok(vec![vec!['4'], vec!['6', '½', '¼']])),
        Err(DecodeError::MalformedLength)
    );
}

#[test]
fn search_by_the_token_pattern_gives_the_length() {
    let tokens = found(kml_walks::length::TOKEN_PATTERN, "from 3¼ to 5 miles");
    assert_eq!(tokens, Ok(vec![vec!['3', '¼'], vec!['5']]));
    assert_eq!(searched_length(tokens), Ok(500));
}

#[test]
fn token_pattern_is_accepted() {
    assert!(found(kml_walks::length::TOKEN_PATTERN, "").is_ok());
    assert_eq!(kml_walks::description_length("1 or 2"), Ok(200));
}
