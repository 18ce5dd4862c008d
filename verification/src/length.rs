//! The length of a walk, read from the text that describes it.
//!
//! A description mentions lengths as tokens: a run of ASCII digits, then
//! fraction glyphs. A token with no glyph is a whole number of miles, one
//! with a single glyph adds a quarter, a half or three quarters, and one with
//! more glyphs is no number. The walk is as long as its largest token says.
//! Lengths are counted in hundredths of a mile.

use vstd::prelude::*;
use crate::record::DecodeError;

verus! {

/// The glyph for one quarter.
pub const QUARTER: char = '\u{bc}';

/// The glyph for one half.
pub const HALF: char = '\u{bd}';

/// The glyph for three quarters.
pub const THREE_QUARTERS: char = '\u{be}';

/// One of the ten ASCII digits.
pub open spec fn is_digit(c: char) -> bool {
    '0' <= c && c <= '9'
}

/// One of the three fraction glyphs.
pub open spec fn is_fraction(c: char) -> bool {
    c == QUARTER || c == HALF || c == THREE_QUARTERS
}

/// Nothing but digits.
pub open spec fn all_digits(text: Seq<char>) -> bool {
    forall|i: int| 0 <= i < text.len() ==> is_digit(#[trigger] text[i])
}

/// What a digit counts for.
pub open spec fn digit_value(c: char) -> nat {
    (c as int - '0' as int) as nat
}

/// The hundredths that a fraction glyph stands for.
pub open spec fn fraction_hundredths(c: char) -> nat {
    if c == QUARTER {
        25
    } else if c == HALF {
        50
    } else {
        75
    }
}

/// The whole number that a run of digits writes in base ten.
pub open spec fn digits_value(digits: Seq<char>) -> nat
    decreases digits.len(),
{
    if digits.len() == 0 {
        0
    } else {
        10 * digits_value(digits.drop_last()) + digit_value(digits.last())
    }
}

/// A count of hundredths as a length, if 64 bits hold it.
pub open spec fn in_range(hundredths: nat) -> Result<nat, DecodeError> {
    if hundredths <= u64::MAX {
        Ok(hundredths)
    } else {
        Err(DecodeError::LengthOutOfRange)
    }
}

/// The length that one token states, in hundredths of a mile.
///
/// Digits alone are whole miles; digits and one fraction glyph are the whole
/// miles and the fraction. Anything else is malformed, a token with two or
/// more glyphs among it.
pub open spec fn token_hundredths(token: Seq<char>) -> Result<nat, DecodeError> {
    if token.len() > 0 && all_digits(token) {
        in_range(100 * digits_value(token))
    } else if token.len() > 1 && is_fraction(token.last()) && all_digits(token.drop_last()) {
        in_range(100 * digits_value(token.drop_last()) + fraction_hundredths(token.last()))
    } else {
        Err(DecodeError::MalformedLength)
    }
}

/// The length that a run of tokens states: the largest of theirs, nothing
/// where there is no token, and the error of the first token that has one.
pub open spec fn longest(tokens: Seq<Seq<char>>) -> Result<nat, DecodeError>
    decreases tokens.len(),
{
    if tokens.len() == 0 {
        Ok(0)
    } else {
        match longest(tokens.drop_last()) {
            Err(e) => Err(e),
            Ok(so_far) => match token_hundredths(tokens.last()) {
                Err(e) => Err(e),
                Ok(hundredths) => Ok(if hundredths > so_far { hundredths } else { so_far }),
            },
        }
    }
}

fn fraction_of(c: char) -> (hundredths: Option<u64>)
    ensures
        hundredths is Some == is_fraction(c),
        hundredths matches Some(h) ==> h == fraction_hundredths(c),
{
    if c == QUARTER {
        Some(25)
    } else if c == HALF {
        Some(50)
    } else if c == THREE_QUARTERS {
        Some(75)
    } else {
        None
    }
}

/// Reads the length that one token states, in hundredths of a mile.
pub fn token_length(token: &Vec<char>) -> (length: Result<u64, DecodeError>)
    ensures
        match length {
            Ok(hundredths) => token_hundredths(token@) == Ok::<nat, DecodeError>(hundredths as nat),
            Err(e) => token_hundredths(token@) == Err::<nat, DecodeError>(e),
        },
{
    let n: usize = token.len();
    if n == 0 {
        return Err(DecodeError::MalformedLength);
    }
    let (end, fraction): (usize, u64) = match fraction_of(token[n - 1]) {
        Some(hundredths) => (n - 1, hundredths),
        None => (n, 0),
    };
    let ghost digits: Seq<char> = token@.take(end as int);
    proof {
        if end < n {
            assert(digits == token@.drop_last());
            assert(!is_digit(token@.last()));
        } else {
            assert(digits == token@);
        }
    }
    if end == 0 {
        return Err(DecodeError::MalformedLength);
    }
    let mut whole: u64 = 0;
    let mut fits: bool = true;
    let mut i: usize = 0;
    while i < end
        invariant
            0 <= i <= end <= n,
            n == token.len(),
            digits == token@.take(end as int),
            (end < n) == is_fraction(token@.last()),
            all_digits(digits.take(i as int)),
            fits ==> whole == digits_value(digits.take(i as int)),
            !fits ==> digits_value(digits.take(i as int)) > u64::MAX,
        decreases end - i,
    {
        let c: char = token[i];
        if !(c >= '0' && c <= '9') {
            proof {
                assert(!is_digit(token@[i as int]));
                if end < n {
                    assert(!is_digit(token@.drop_last()[i as int]));
                }
            }
            return Err(DecodeError::MalformedLength);
        }
        let digit: u64 = (c as u32 - '0' as u32) as u64;
        proof {
            let longer = digits.take(i + 1);
            assert(longer.drop_last() == digits.take(i as int));
            assert(longer.last() == c);
            assert(digits_value(longer) == 10 * digits_value(digits.take(i as int)) + digit);
            assert forall|j: int| 0 <= j < longer.len() implies is_digit(#[trigger] longer[j]) by {
                if j < i {
                    assert(longer[j] == digits.take(i as int)[j]);
                }
            }
        }
        if fits {
            match whole.checked_mul(10) {
                Some(tens) => match tens.checked_add(digit) {
                    Some(sum) => {
                        whole = sum;
                    },
                    None => {
                        fits = false;
                    },
                },
                None => {
                    fits = false;
                },
            }
        }
        i = i + 1;
    }
    proof {
        assert(digits.take(end as int) == digits);
    }
    if !fits {
        return Err(DecodeError::LengthOutOfRange);
    }
    match whole.checked_mul(100) {
        Some(hundreds) => match hundreds.checked_add(fraction) {
            Some(hundredths) => Ok(hundredths),
            None => Err(DecodeError::LengthOutOfRange),
        },
        None => Err(DecodeError::LengthOutOfRange),
    }
}

/// The texts of a vector of tokens.
pub open spec fn texts(tokens: Seq<Vec<char>>) -> Seq<Seq<char>> {
    tokens.map_values(|token: Vec<char>| token@)
}

/// Where the run up to `at` states a length and the token at `at` does not,
/// the whole run fails as that token does.
proof fn lemma_longest_stops(tokens: Seq<Seq<char>>, at: int)
    requires
        0 <= at < tokens.len(),
        longest(tokens.take(at)) is Ok,
        token_hundredths(tokens[at]) is Err,
    ensures
        longest(tokens) == Err::<nat, DecodeError>(token_hundredths(tokens[at])->Err_0),
    decreases tokens.len(),
{
    if at + 1 == tokens.len() {
        assert(tokens.drop_last() == tokens.take(at));
    } else {
        assert(tokens.drop_last().take(at) == tokens.take(at));
        lemma_longest_stops(tokens.drop_last(), at);
    }
}

/// Reads the length that a run of tokens states, in hundredths of a mile:
/// the largest of theirs, or the error of the first token that has one.
pub fn longest_length(tokens: &Vec<Vec<char>>) -> (length: Result<u64, DecodeError>)
    ensures
        match length {
            Ok(hundredths) => longest(texts(tokens@)) == Ok::<nat, DecodeError>(hundredths as nat),
            Err(e) => longest(texts(tokens@)) == Err::<nat, DecodeError>(e),
        },
{
    let mut most: u64 = 0;
    let mut i: usize = 0;
    while i < tokens.len()
        invariant
            0 <= i <= tokens.len(),
            longest(texts(tokens@).take(i as int)) == Ok::<nat, DecodeError>(most as nat),
        decreases tokens.len() - i,
    {
        proof {
            let seen = texts(tokens@).take(i + 1);
            assert(seen.drop_last() == texts(tokens@).take(i as int));
            assert(seen.last() == tokens@[i as int]@);
            if i + 1 == tokens.len() {
                assert(seen == texts(tokens@));
            }
        }
        match token_length(&tokens[i]) {
            Ok(hundredths) => {
                if hundredths > most {
                    most = hundredths;
                }
            },
            Err(e) => {
                proof {
                    lemma_longest_stops(texts(tokens@), i as int);
                }
                return Err(e);
            },
        }
        i = i + 1;
    }
    proof {
        assert(texts(tokens@).take(i as int) == texts(tokens@));
    }
    Ok(most)
}

/// The pattern that a length token matches: one or more ASCII digits, then
/// any number of fraction glyphs.
pub const TOKEN_PATTERN: &'static str = "[0-9]+[\u{bc}\u{bd}\u{be}]*";

#[verifier::external_type_specification]
#[verifier::external_body]
pub struct ExPatternError(regex::Error);

/// Whether the regex engine takes `pattern`: it does unless the pattern is
/// invalid or would compile to more than the engine's size limit.
pub uninterp spec fn pattern_accepted(pattern: Seq<char>) -> bool;

/// The texts of the successive non-overlapping matches of `pattern` in
/// `haystack`, first to last, as the regex engine finds them once it has
/// taken the pattern.
pub uninterp spec fn pattern_matches(pattern: Seq<char>, haystack: Seq<char>) -> Seq<Seq<char>>;

/// Compiles `pattern` with `regex::Regex::new` and walks `haystack` with
/// `regex::Regex::find_iter`, handing out the text of each match as its
/// characters.
///
/// Two things are claimed. Whether the engine takes the pattern depends on
/// the pattern alone, since it is compiled with the engine's fixed default
/// settings: an error comes back where [`pattern_accepted`] says no, and
/// nowhere else. Where the pattern is taken, the matches depend on pattern
/// and haystack alone: they are those that [`pattern_matches`] names.
#[verifier::external_body]
fn find_matches(pattern: &str, haystack: &str) -> (found: Result<Vec<Vec<char>>, regex::Error>)
    ensures
        found is Ok <==> pattern_accepted(pattern@),
        found matches Ok(matches) ==> texts(matches@) == pattern_matches(pattern@, haystack@),
{
    let compiled = regex::Regex::new(pattern)?;
    Ok(compiled.find_iter(haystack).map(|found| found.as_str().chars().collect()).collect())
}

/// The length that a description states: that of the tokens which
/// [`TOKEN_PATTERN`] finds in it, and [`DecodeError::PatternRejected`] where
/// the regex engine does not take the pattern.
pub open spec fn described_length(description: Seq<char>) -> Result<nat, DecodeError> {
    if pattern_accepted(TOKEN_PATTERN@) {
        longest(pattern_matches(TOKEN_PATTERN@, description))
    } else {
        Err(DecodeError::PatternRejected)
    }
}

/// Reads the length from what a search for tokens came back with: the
/// length that the tokens state, or [`DecodeError::PatternRejected`] where
/// the engine turned the pattern down.
pub fn searched_length(found: Result<Vec<Vec<char>>, regex::Error>) -> (length: Result<
    u64,
    DecodeError,
>)
    ensures
        match found {
            Ok(tokens) => match length {
                Ok(hundredths) => longest(texts(tokens@)) == Ok::<nat, DecodeError>(
                    hundredths as nat,
                ),
                Err(e) => longest(texts(tokens@)) == Err::<nat, DecodeError>(e),
            },
            Err(_) => length == Err::<u64, DecodeError>(DecodeError::PatternRejected),
        },
{
    match found {
        Ok(tokens) => longest_length(&tokens),
        Err(_) => Err(DecodeError::PatternRejected),
    }
}

/// Reads the length of a walk from its description, in hundredths of a mile.
///
/// The tokens are searched by the regex engine. The answer is
/// [`DecodeError::PatternRejected`] where the engine does not take the token
/// pattern, and nowhere else; where it does, the answer is the length that
/// the tokens state.
pub fn description_length(description: &str) -> (length: Result<u64, DecodeError>)
    ensures
        match length {
            Ok(hundredths) => pattern_accepted(TOKEN_PATTERN@) && described_length(description@)
                == Ok::<nat, DecodeError>(hundredths as nat),
            Err(DecodeError::PatternRejected) => !pattern_accepted(TOKEN_PATTERN@)
                && described_length(description@) == Err::<nat, DecodeError>(
                DecodeError::PatternRejected,
            ),
            Err(e) => pattern_accepted(TOKEN_PATTERN@) && described_length(description@) == Err::<
                nat,
                DecodeError,
            >(e),
        },
        length matches Err(e) ==> e == DecodeError::PatternRejected || e
            == DecodeError::MalformedLength || e == DecodeError::LengthOutOfRange,
{
    let found = find_matches(TOKEN_PATTERN, description);
    proof {
        lemma_longest_errors(pattern_matches(TOKEN_PATTERN@, description@));
    }
    searched_length(found)
}

/// A run of tokens fails only on a malformed token or on one that is out of
/// range.
pub proof fn lemma_longest_errors(tokens: Seq<Seq<char>>)
    ensures
        longest(tokens) matches Err(e) ==> e == DecodeError::MalformedLength || e
            == DecodeError::LengthOutOfRange,
    decreases tokens.len(),
{
    if tokens.len() > 0 {
        lemma_longest_errors(tokens.drop_last());
    }
}

/// A description fails with [`DecodeError::PatternRejected`] where the
/// regex engine does not take the token pattern, and nowhere else.
pub proof fn lemma_rejected_by_engine(description: Seq<char>)
    ensures
        described_length(description) == Err::<nat, DecodeError>(DecodeError::PatternRejected)
            <==> !pattern_accepted(TOKEN_PATTERN@),
{
    lemma_longest_errors(pattern_matches(TOKEN_PATTERN@, description));
}

/// Where the regex engine takes the token pattern and every token that it
/// finds in a description is a whole number, digits and no glyph, whose
/// hundred times fits in 64 bits, the description states the largest of the
/// numbers, or nothing where no token is found.
pub proof fn lemma_described_whole_numbers(description: Seq<char>)
    requires
        pattern_accepted(TOKEN_PATTERN@),
        forall|i: int|
            0 <= i < pattern_matches(TOKEN_PATTERN@, description).len() ==> (
            #[trigger] pattern_matches(TOKEN_PATTERN@, description)[i]).len() > 0 && all_digits(
                pattern_matches(TOKEN_PATTERN@, description)[i],
            ) && 100 * digits_value(pattern_matches(TOKEN_PATTERN@, description)[i]) <= u64::MAX,
    ensures
        described_length(description) is Ok,
        forall|i: int|
            0 <= i < pattern_matches(TOKEN_PATTERN@, description).len() ==> 100 * digits_value(
                #[trigger] pattern_matches(TOKEN_PATTERN@, description)[i],
            ) <= described_length(description)->Ok_0,
        pattern_matches(TOKEN_PATTERN@, description).len() == 0 ==> described_length(description)
            == Ok::<nat, DecodeError>(0),
        pattern_matches(TOKEN_PATTERN@, description).len() > 0 ==> exists|i: int|
            0 <= i < pattern_matches(TOKEN_PATTERN@, description).len() && described_length(
                description,
            ) == Ok::<nat, DecodeError>(
                100 * digits_value(#[trigger] pattern_matches(TOKEN_PATTERN@, description)[i]),
            ),
{
    lemma_whole_numbers(pattern_matches(TOKEN_PATTERN@, description));
}

/// Where every token states a length, the run states the largest of them:
/// no token states more, one of them states as much, and a run of no tokens
/// states nothing.
pub proof fn lemma_longest_is_largest(tokens: Seq<Seq<char>>)
    requires
        forall|i: int| 0 <= i < tokens.len() ==> token_hundredths(#[trigger] tokens[i]) is Ok,
    ensures
        longest(tokens) is Ok,
        forall|i: int|
            0 <= i < tokens.len() ==> token_hundredths(#[trigger] tokens[i])->Ok_0 <= longest(
                tokens,
            )->Ok_0,
        tokens.len() == 0 ==> longest(tokens) == Ok::<nat, DecodeError>(0),
        tokens.len() > 0 ==> exists|i: int|
            0 <= i < tokens.len() && token_hundredths(#[trigger] tokens[i]) == longest(tokens),
    decreases tokens.len(),
{
    if tokens.len() > 0 {
        let head = tokens.drop_last();
        assert forall|i: int| 0 <= i < head.len() implies token_hundredths(
            #[trigger] head[i],
        ) is Ok by {
            assert(head[i] == tokens[i]);
        }
        lemma_longest_is_largest(head);
        let last = tokens.len() - 1;
        assert(token_hundredths(tokens[last]) is Ok);
        assert forall|i: int| 0 <= i < tokens.len() implies token_hundredths(
            #[trigger] tokens[i],
        )->Ok_0 <= longest(tokens)->Ok_0 by {
            if i < last {
                assert(head[i] == tokens[i]);
            }
        }
        if longest(tokens) == token_hundredths(tokens[last]) {
        } else {
            let i = choose|i: int|
                0 <= i < head.len() && token_hundredths(#[trigger] head[i]) == longest(head);
            assert(head[i] == tokens[i]);
        }
    }
}

/// Where a token states no length and all before it do, the run fails as
/// that token does.
pub proof fn lemma_longest_fails_first(tokens: Seq<Seq<char>>, at: int)
    requires
        0 <= at < tokens.len(),
        forall|i: int| 0 <= i < at ==> token_hundredths(#[trigger] tokens[i]) is Ok,
        token_hundredths(tokens[at]) is Err,
    ensures
        longest(tokens) == Err::<nat, DecodeError>(token_hundredths(tokens[at])->Err_0),
{
    let head = tokens.take(at);
    assert forall|i: int| 0 <= i < head.len() implies token_hundredths(#[trigger] head[i]) is Ok by {
        assert(head[i] == tokens[i]);
    }
    lemma_longest_is_largest(head);
    lemma_longest_stops(tokens, at);
}

/// Where every token is a whole number, digits and no glyph, whose hundred
/// times fits in 64 bits, the run states the largest of the numbers, or
/// nothing where there is no token.
pub proof fn lemma_whole_numbers(tokens: Seq<Seq<char>>)
    requires
        forall|i: int|
            0 <= i < tokens.len() ==> (#[trigger] tokens[i]).len() > 0 && all_digits(tokens[i])
                && 100 * digits_value(tokens[i]) <= u64::MAX,
    ensures
        longest(tokens) is Ok,
        forall|i: int|
            0 <= i < tokens.len() ==> 100 * digits_value(#[trigger] tokens[i]) <= longest(
                tokens,
            )->Ok_0,
        tokens.len() == 0 ==> longest(tokens) == Ok::<nat, DecodeError>(0),
        tokens.len() > 0 ==> exists|i: int|
            0 <= i < tokens.len() && longest(tokens) == Ok::<nat, DecodeError>(
                100 * digits_value(#[trigger] tokens[i]),
            ),
{
    assert forall|i: int| 0 <= i < tokens.len() implies token_hundredths(#[trigger] tokens[i])
        == Ok::<nat, DecodeError>(100 * digits_value(tokens[i])) by {}
    lemma_longest_is_largest(tokens);
    if tokens.len() > 0 {
        let i = choose|i: int|
            0 <= i < tokens.len() && token_hundredths(#[trigger] tokens[i]) == longest(tokens);
        assert(longest(tokens) == Ok::<nat, DecodeError>(100 * digits_value(tokens[i])));
    }
}

/// A token that ends in two fraction glyphs is no number.
pub proof fn lemma_two_glyphs_malformed(token: Seq<char>)
    requires
        token.len() >= 2,
        is_fraction(token[token.len() - 1]),
        is_fraction(token[token.len() - 2]),
    ensures
        token_hundredths(token) == Err::<nat, DecodeError>(DecodeError::MalformedLength),
{
    assert(!is_digit(token[token.len() - 1]));
    assert(!is_digit(token.drop_last()[token.len() - 2]));
}

} // verus!
