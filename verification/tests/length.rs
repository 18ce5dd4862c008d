use kml_walks::length::{HALF, QUARTER, THREE_QUARTERS, TOKEN_PATTERN};
use kml_walks::{description_length, longest_length, token_length, DecodeError};

fn token(text: &str) -> Vec<char> {
    text.chars().collect()
}

fn tokens(texts: &[&str]) -> Vec<Vec<char>> {
    texts.iter().map(|text| token(text)).collect()
}

#[test]
fn glyphs_are_the_vulgar_fractions() {
    assert_eq!(QUARTER, '¼');
    assert_eq!(HALF, '½');
    assert_eq!(THREE_QUARTERS, '¾');
    assert_eq!(TOKEN_PATTERN, "[0-9]+[¼½¾]*");
}

#[test]
fn plain_integers_give_the_largest() {
    let description = "A lovely 4 mile walk, or 6 if you add the pub detour";
    assert_eq!(description_length(description), Ok(600));
}

#[test]
fn largest_integer_may_come_first() {
    assert_eq!(description_length("12 miles, or 3 by the short cut, or 7"), Ok(1200));
}

#[test]
fn no_number_gives_nothing() {
    assert_eq!(description_length("A gentle stroll by the river"), Ok(0));
    assert_eq!(description_length(""), Ok(0));
}

#[test]
fn quarter_is_twenty_five_hundredths() {
    assert_eq!(description_length("3¼ miles"), Ok(325));
}

#[test]
fn half_is_fifty_hundredths() {
    assert_eq!(description_length("2½"), Ok(250));
}

#[test]
fn three_quarters_is_seventy_five_hundredths() {
    assert_eq!(description_length("5¾"), Ok(575));
}

#[test]
fn concatenated_glyphs_are_malformed() {
    assert_eq!(description_length("1¼¾"), Err(DecodeError::MalformedLength));
    assert_eq!(description_length("4½½ miles"), Err(DecodeError::MalformedLength));
}

#[test]
fn malformed_token_fails_beside_sound_ones() {
    assert_eq!(description_length("10 miles or 4½¾"), Err(DecodeError::MalformedLength));
    assert_eq!(description_length("4½¾ or 10 miles"), Err(DecodeError::MalformedLength));
}

#[test]
fn fraction_decides_between_equal_wholes() {
    assert_eq!(description_length("7 or 7½ or 7¼"), Ok(750));
}

#[test]
fn glyph_without_digits_is_no_token() {
    assert_eq!(description_length("about ½ a mile"), Ok(0));
    assert_eq!(description_length("¾ then 2"), Ok(200));
}

#[test]
fn glyph_binds_to_the_digits_before_it() {
    assert_eq!(description_length("3 ¼"), Ok(300));
    assert_eq!(description_length("6½7"), Ok(700));
}

#[test]
fn decimal_point_parts_two_tokens() {
    assert_eq!(description_length("4.5 miles"), Ok(500));
}

#[test]
fn leading_zeros_count_for_nothing() {
    assert_eq!(description_length("007 miles"), Ok(700));
    assert_eq!(description_length("0"), Ok(0));
}

#[test]
fn digits_of_other_scripts_are_no_tokens() {
    assert_eq!(description_length("٣ miles"), Ok(0));
    assert_eq!(description_length("３ miles and 2"), Ok(200));
}

#[test]
fn largest_length_that_fits() {
    assert_eq!(
        description_length("184467440737095516 miles"),
        Ok(18_446_744_073_709_551_600)
    );
    assert_eq!(
        description_length("184467440737095515¾"),
        Ok(18_446_744_073_709_551_575)
    );
}

#[test]
fn length_beyond_sixty_four_bits_is_out_of_range() {
    assert_eq!(
        description_length("184467440737095516¼"),
        Err(DecodeError::LengthOutOfRange)
    );
    assert_eq!(
        description_length("184467440737095517"),
        Err(DecodeError::LengthOutOfRange)
    );
    assert_eq!(
        description_length("99999999999999999999999999999999 miles"),
        Err(DecodeError::LengthOutOfRange)
    );
}

#[test]
fn malformed_goes_before_out_of_range_in_one_token() {
    assert_eq!(
        description_length("99999999999999999999999999999999¼¾"),
        Err(DecodeError::MalformedLength)
    );
}

#[test]
fn first_failing_token_decides_the_error() {
    assert_eq!(
        description_length("99999999999999999999999 then 1¼¾"),
        Err(DecodeError::LengthOutOfRange)
    );
    assert_eq!(
        description_length("1¼¾ then 99999999999999999999999"),
        Err(DecodeError::MalformedLength)
    );
}

#[test]
fn token_of_digits_is_whole_miles() {
    assert_eq!(token_length(&token("4")), Ok(400));
    assert_eq!(token_length(&token("120")), Ok(12000));
}

#[test]
fn token_with_one_glyph_adds_the_fraction() {
    assert_eq!(token_length(&token("4¼")), Ok(425));
    assert_eq!(token_length(&token("4½")), Ok(450));
    assert_eq!(token_length(&token("4¾")), Ok(475));
}

#[test]
fn token_of_another_shape_is_malformed() {
    assert_eq!(token_length(&token("")), Err(DecodeError::MalformedLength));
    assert_eq!(token_length(&token("¼")), Err(DecodeError::MalformedLength));
    assert_eq!(token_length(&token("4½¾")), Err(DecodeError::MalformedLength));
    assert_eq!(token_length(&token("¼4")), Err(DecodeError::MalformedLength));
    assert_eq!(token_length(&token("4¼4")), Err(DecodeError::MalformedLength));
    assert_eq!(token_length(&token("4.25")), Err(DecodeError::MalformedLength));
    assert_eq!(token_length(&token("-4")), Err(DecodeError::MalformedLength));
    assert_eq!(token_length(&token("four")), Err(DecodeError::MalformedLength));
}

#[test]
fn token_too_large_is_out_of_range() {
    assert_eq!(
        token_length(&token("18446744073709551616")),
        Err(DecodeError::LengthOutOfRange)
    );
    assert_eq!(
        token_length(&token("184467440737095516½")),
        Err(DecodeError::LengthOutOfRange)
    );
}

#[test]
fn longest_of_no_tokens_is_nothing() {
    assert_eq!(longest_length(&tokens(&[])), Ok(0));
}

#[test]
fn longest_of_whole_numbers_is_the_largest() {
    assert_eq!(longest_length(&tokens(&["4", "6"])), Ok(600));
    assert_eq!(longest_length(&tokens(&["6", "4"])), Ok(600));
    assert_eq!(longest_length(&tokens(&["3", "11", "7¾", "11"])), Ok(1100));
}

#[test]
fn longest_fails_as_the_first_bad_token() {
    assert_eq!(
        longest_length(&tokens(&["4", "1¼¾", "18446744073709551616"])),
        Err(DecodeError::MalformedLength)
    );
    assert_eq!(
        longest_length(&tokens(&["4", "18446744073709551616", "1¼¾"])),
        Err(DecodeError::LengthOutOfRange)
    );
}

fn by_substitution(description: &str) -> Option<f64> {
    let pattern = regex::Regex::new(TOKEN_PATTERN).unwrap();
    let mut length: f64 = 0.0;
    for found in pattern.find_iter(description) {
        let number =
            found.as_str().replace('¼', ".25").replace('½', ".50").replace('¾', ".75");
        let value = number.parse::<f64>().ok()?;
        if value > length {
            length = value;
        }
    }
    Some(length)
}

#[test]
fn agrees_with_substitution_and_parsing() {
    let descriptions = [
        "",
        "no numbers at all",
        "A lovely 4 mile walk, or 6 if you add the pub detour",
        "3¼ miles",
        "2½",
        "5¾",
        "1¼¾",
        "10 or 10¼ or 9¾",
        "4½¼ then 12",
        "12 then 4½¼",
        "0¼",
        "007½ miles",
        "start at 51.2, walk 8½ miles (13.7 km), climb 250m",
        "¼ ½ ¾",
        "3 ¼",
        "123456789012345",
    ];
    for description in descriptions {
        let expected = by_substitution(description);
        match description_length(description) {
            Ok(hundredths) => assert_eq!(Some(hundredths as f64 / 100.0), expected),
            Err(error) => {
                assert_eq!(error, DecodeError::MalformedLength);
                assert_eq!(expected, None);
            }
        }
    }
}
