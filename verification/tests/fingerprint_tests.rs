use pyret_moss::fingerprint::{hash, mod_exp, robust_winnow, rolling_hash, PRIME_MODULUS};


#[test]
// tests that mod_exp performs modular exponentiation as expected
fn mod_exp_test() {
    assert_eq!(mod_exp(2, 5, 1), 0, "zero when mod 1");
    assert_eq!(mod_exp(3, 3, 82), 27, "normal exponent when much less than mod");
    assert_eq!(mod_exp(3, 4, 82), 81, "normal exponent when less than mod");
    assert_eq!(mod_exp(2, 5, 32), 0, "zero when base^exp equals mod");
    assert_eq!(mod_exp(2, 6, 32), 0, "zero when base^exp divisible by mod");
    assert_eq!(mod_exp(3, 5, 82), 79, "wraps around when base^exp exceeds mod");
    assert_eq!(mod_exp(19, 7, 123), 112, "can wrap around mod several times");
}

#[test]
// tests hash() and rolling_hash() for empty inputs
fn empty_input_hash() {
    let mut empty: Vec<&str> = Vec::new();

    assert_eq!(hash(""), 0);
    assert_eq!(rolling_hash(empty), vec![]);
}

#[test]
// tests that single character strings are always represented as their code points after
// hashing, with the exception of capital letters having the same value as lowercase counterparts
fn code_points() {
    assert_eq!(hash("!"), 33);
    assert_eq!(hash("M"), 109);
    assert_eq!(hash("m"), 109);
    assert_eq!(hash("é"), 233);
    assert_eq!(rolling_hash(vec!["!", "M", "m", "é"]), vec![33, 109, 109, 233]);
}

#[test]
// tests that hash() and rolling_hash() are case insensitive
fn case_insensitive() {
    let mut lowercase_kgrams: Vec<&str> = vec!["this is a te", "his is a tes", "is is a test"];
    let mut mixcase_kgrams: Vec<&str> = vec!["tHis IS a TE", "his is a tes", "IS IS A TEST"];
    let mut uppercase_kgrams: Vec<&str> = vec!["THIS IS A TE", "HIS IS A TES", "IS IS A TEST"];

    assert_eq!(hash("a"), hash("A"));
    assert_eq!(hash("hello"), hash("HeLLo"));
    assert_eq!(rolling_hash(lowercase_kgrams), rolling_hash(mixcase_kgrams.to_owned()));
    assert_eq!(rolling_hash(mixcase_kgrams.to_owned()), rolling_hash(uppercase_kgrams));
}

#[test]
// tests that hash() and rolling_hash() consider the order of characters
fn rearranged_characters() {
    let mut arrange_1: Vec<i64> = rolling_hash(vec!["aba", "bab", "abb"]);
    let mut arrange_2: Vec<i64> = rolling_hash(vec!["aab", "abb", "bba"]);

    assert_ne!(hash("abc"), hash("bac"));
    assert_ne!(hash("this is a test"), hash("a test this is"));
    assert_ne!(arrange_1[0], arrange_2[0]);
    assert_ne!(arrange_1[1], arrange_2[1]);
    assert_ne!(arrange_1[2], arrange_2[2]);
}

#[test]
// tests that distinct calls to identical inputs to hash() and rolling_hash() yield identical outputs
fn equal_input_equal_output() {
    let mut three_kgrams: Vec<&str> = vec!["abcd", "bcde", "cdef"];
    let mut three_kgrams_hashed: Vec<i64> = rolling_hash(three_kgrams);
    let mut three_kgrams_copy: Vec<&str> = vec!["abcd", "bcde", "cdef"];

    assert_eq!(hash("abcdefg"), hash("abcdefg"));
    assert_eq!(hash("@ 3 df KM34,;."), hash("@ 3 df KM34,;."));
    assert_eq!(rolling_hash(three_kgrams_copy), three_kgrams_hashed);
}

#[test]
// tests that hash() and rolling_hash() do not overflow on lengthy inputs
fn no_overflow() {
    let long_input: i64 = hash("The quick brown fox jumps over the lazy dog");
    let high_code_points: i64 = hash("ó { |~ û ÿ ©÷ ó { |~ û ÿ ©÷ ó { |~ û ÿ ©÷");
    let mut large_kgrams: Vec<i64> = rolling_hash(vec!["each string is pretty long in this V",
    "ach string is pretty long in this Ve", "ch string is pretty long in this Vec"]);

    assert_eq!(long_input < PRIME_MODULUS, true);
    assert_eq!(high_code_points < PRIME_MODULUS, true);
    assert_eq!(large_kgrams[0] < PRIME_MODULUS, true);
    assert_eq!(large_kgrams[1] < PRIME_MODULUS, true);
    assert_eq!(large_kgrams[2] < PRIME_MODULUS, true);
}

#[test]
// tests that rolling_hash() does not allow underflow when the first character component is
// greater than the rest
fn no_underflow() {
    let underflow_test: Vec<i64> = rolling_hash(vec!["ÿ!0", "!0!"]);

    assert_eq!(underflow_test[1] > 0, true);
}

#[test]
// tests the output Vec of the rolling_hash() is the same length as the input Vec
fn rolling_hash_output_length() {
    assert_eq!(rolling_hash(vec!["ab", "bc", "cd", "de", "ef"]).len(), 5);
}

#[test]
// tests that the rolling hash produces the same hash values as the naive hash
fn hash_vs_rolling_hash() {
    let mut one_kgram: Vec<&str> = vec!["there is one kgram!"];
    let mut three_kgrams: Vec<&str> = vec!["abcde", "bcdef", "cdefg"];
    let mut special_chars: Vec<&str> = vec!["$ 1:", " 1:,", "1:,a", ":,aA"];
    let mut spec_indiv_hashes = vec![hash("$ 1:"), hash(" 1:,"), hash("1:,a"), hash(":,aA")];

    assert_eq!(rolling_hash(one_kgram), vec![hash("there is one kgram!")]);
    assert_eq!(rolling_hash(three_kgrams), vec![hash("abcde"), hash("bcdef"), hash("cdefg")]);
    assert_eq!(rolling_hash(special_chars), spec_indiv_hashes);
}

#[test]
// tests that the min is properly selected from a single window
fn single_window_winnow() {
    let input: Vec<i64> = vec![13, 4, 72, 3];
    let output: Vec<(i64, usize)> = vec![(3, 3)];

    assert_eq!(robust_winnow(input, 4), output, "single window to be winnowed");
}

#[test]
// tests that each member is selected as a fingeprint when the window size is 1
fn smallest_window_size() {
    let input: Vec<i64> = vec![2, 2, 13, 64, 64, 2];
    let output: Vec<(i64, usize)> = vec![(2, 0), (2, 1), (13, 2), (64, 3), (64, 4), (2, 5)];

    assert_eq!(robust_winnow(input, 1), output, "window size of 1");
}

#[test]
// tests that the rightmost min hash is selected as expected (when the left may not be)
fn rightmost_selected() {
    let input: Vec<i64> = vec![2, 2, 13, 64, 64, 2];
    let output: Vec<(i64, usize)> = vec![(2, 1), (13, 2), (64, 4), (2, 5)];

    assert_eq!(robust_winnow(input, 2), output, "window size of 2, breaks ties right min");
}

#[test]
// tests that the leftmost min hash is selected when possible (when in prev window)
fn leftmost_selected() {
    let input: Vec<i64> = vec![2, 2, 13, 64, 9, 2];
    let output: Vec<(i64, usize)> = vec![(2, 1), (9, 4), (2, 5)];

    assert_eq!(robust_winnow(input, 3), output, "window size of 3, breaks ties left min");
}

#[test]
// tests a hand-verified lengthy example on various window sizes
fn lengthy_hand_verified() {
    let input: Vec<i64> = vec![4743, 2048, 728, 2741, 2332, 95, 2941, 95, 3040, 1619,
        4384, 3591, 3567, 4851, 4634, 2588, 3936, 1957, 3980, 3988, 4718, 4225,
        2120, 2954, 4093, 2298, 1760, 2];

    // window size 2
    let output: Vec<(i64, usize)> = vec![(2048, 1), (728, 2), (2332, 4), (95, 5), (95, 7),
        (1619, 9), (3591, 11), (3567, 12), (4634, 14), (2588, 15), (1957, 17), (3980, 18),
        (3988, 19), (4225, 21), (2120, 22), (2954, 23), (2298, 25), (1760, 26), (2, 27)];

    assert_eq!(robust_winnow(input.to_owned(), 2), output);

    // window size 5
    let output: Vec<(i64, usize)> = vec![(728, 2), (95, 5), (95, 7), (1619, 9), (3567, 12),
        (2588, 15), (1957, 17), (2120, 22), (1760, 26), (2, 27)];

    assert_eq!(robust_winnow(input.to_owned(), 5), output);

    // window size 10
    let output: Vec<(i64, usize)> = vec![(95, 7), (1619, 9), (1957, 17), (1760, 26), (2, 27)];

    assert_eq!(robust_winnow(input.to_owned(), 10), output);

    // window size 20
    let output: Vec<(i64, usize)> = vec![(95, 7), (2, 27)];

    assert_eq!(robust_winnow(input.to_owned(), 20), output);
}

#[test]
// tests robust_winnow() on the example provided in the "Winnowing: Local Algorithms for
// Document Fingerprinting" paper
fn paper_verified_robust_winnow() {
    let paper_example: Vec<i64> =
        vec![77, 74, 42, 17, 98, 50, 17, 98, 8, 88, 67, 39, 77, 74, 42, 17, 98];
    let expected_output: Vec<(i64, usize)> = vec![(17, 3), (17, 6), (8, 8), (39, 11), (17, 15)];

    assert_eq!(robust_winnow(paper_example, 4), expected_output);
}
