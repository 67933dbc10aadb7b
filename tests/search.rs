use vanity_btc::address::BitcoinAddress;
use vanity_btc::search::{
    contains_text, matches_prefix, matches_substring, search, starts_with_text, SearchStop,
};

#[test]
fn always_matching_search_takes_one_attempt() {
    let result = search(&|_a: &String| true, &|_n: u64| {}, &|| false).expect("a match");
    assert_eq!(result.attempts, 1);
    assert!(result.address.verify_cryptographic_validity());
}

#[test]
fn cancelled_search_gives_up() {
    let result = search(&|_a: &String| false, &|_n: u64| {}, &|| true);
    assert!(matches!(result, Err(SearchStop::Cancelled)));
}

#[test]
fn search_with_single_symbol_target() {
    let result = BitcoinAddress::generate_vanity("a", true, &|_n: u64| {}, &|| false)
        .expect("a match");
    assert!(result.address.address().contains('a'));
    assert!(result.attempts >= 1);
}

#[test]
fn prefix_search_with_short_prefix() {
    let result = BitcoinAddress::generate_prefix("a", false, &|_n: u64| {}, &|| false)
        .expect("a match");
    let text = result.address.address().to_lowercase();
    assert!(text[1..].starts_with('a'));
}

#[test]
fn substring_text_basics() {
    assert!(contains_text("1BgGZ9tc", "GZ9"));
    assert!(contains_text("abc", ""));
    assert!(contains_text("abc", "abc"));
    assert!(!contains_text("abc", "abcd"));
    assert!(!contains_text("abc", "ac"));
    assert!(starts_with_text("abc", "ab"));
    assert!(!starts_with_text("abc", "b"));
}

#[test]
fn case_insensitive_substring_ignores_case_of_target() {
    let address = "1MakErXyz";
    for target in ["make", "MAKE", "MaKe", "mAkE"] {
        assert!(matches_substring(address, target, false));
    }
    assert!(matches_substring(address, "MakE", true));
    assert!(!matches_substring(address, "make", true));
    assert!(!matches_substring(address, "nico", false));
}

#[test]
fn prefix_skips_leading_symbol() {
    assert!(matches_prefix("1Nico", "Nic", true));
    assert!(!matches_prefix("1Nico", "1Nic", true));
    assert!(matches_prefix("1Nico", "nIC", false));
    assert!(!matches_prefix("1Nico", "nic", true));
    assert!(matches_prefix("1", "", true));
    assert!(!matches_prefix("", "", true));
}

#[test]
fn empty_target_matches_first_candidate() {
    for case_sensitive in [true, false] {
        let result =
            BitcoinAddress::generate_vanity("", case_sensitive, &|_n: u64| {}, &|| true)
                .expect("the first candidate matches");
        assert_eq!(result.attempts, 1);
    }
}

#[test]
fn leading_symbol_target_matches_first_candidate() {
    for case_sensitive in [true, false] {
        let result =
            BitcoinAddress::generate_vanity("1", case_sensitive, &|_n: u64| {}, &|| true)
                .expect("the first candidate matches");
        assert_eq!(result.attempts, 1);
    }
}

#[test]
fn empty_prefix_matches_first_candidate() {
    for case_sensitive in [true, false] {
        let result =
            BitcoinAddress::generate_prefix("", case_sensitive, &|_n: u64| {}, &|| true)
                .expect("the first candidate matches");
        assert_eq!(result.attempts, 1);
        assert!(result.address.verify_cryptographic_validity());
    }
}

#[test]
fn cancelled_vanity_search_gives_up() {
    let result = BitcoinAddress::generate_vanity("0", true, &|_n: u64| {}, &|| true);
    assert!(matches!(result, Err(SearchStop::Cancelled)));
}
