use std::collections::HashMap;

use fortune::cookie::pattern::{is_long, is_short, QuotePattern};
use fortune::cookie::weight::{distribute, parse_weight, FULL, PERCENT};
use fortune::cookie::{CookieCabinet, CookieError, CookieJar, CookieShelf, CookieSieve};

fn tokens(line: &str) -> Vec<String> {
    line.split_whitespace().map(|s| s.to_string()).collect()
}

#[test]
fn text_parsing_scenario() {
    let jar = CookieJar::from_text("apple\n%\nbanana\n%", "fruit", '%').unwrap();
    assert_eq!(2, jar.cookies.len());
    assert_eq!(7, jar.max_length);
    assert_eq!(6, jar.min_length);
    assert_eq!(16, jar.file_size);
}

#[test]
fn text_without_quotes_keeps_the_sentinels() {
    let jar = CookieJar::from_text(" \n%\n\t\n%\n", "blank", '%').unwrap();
    assert_eq!(0, jar.cookies.len());
    assert_eq!(0, jar.max_length);
    assert_eq!(u64::MAX, jar.min_length);
}

#[test]
fn line_endings_are_normalized() {
    let jar = CookieJar::from_text("one\r\n%\r\ntwo\r%\rthree", "x.dat.dat", '%').unwrap();
    let texts: Vec<&str> = jar.cookies.iter().map(|c| c.content.as_str()).collect();
    assert_eq!(vec!["one", "two", "three"], texts);
    assert_eq!(17, jar.file_size);
    assert_eq!("x", jar.location);
    assert!(jar.cookies.iter().all(|c| c.location == "x" && c.offset == 0));
}

#[test]
fn multibyte_quotes_count_bytes() {
    let jar = CookieJar::from_text("子曰\n%\nab", "lunyu", '%').unwrap();
    assert_eq!(7, jar.max_length);
    assert_eq!(3, jar.min_length);
}

#[test]
fn contradictory_sieve_keeps_nothing() {
    let mut jar = CookieJar::from_text("apple\n%\nbanana\n%\ncherry!", "fruit", '%').unwrap();
    let mut sieve: CookieSieve<fn(&str) -> bool> = CookieSieve::default();
    sieve.add_filter(|q: &str| q.len() < 6);
    sieve.add_filter(|q: &str| q.len() > 5);
    jar.filter(&sieve).unwrap();
    assert!(jar.cookies.iter().all(|c| c.content != "banana"));
    assert_eq!(0, jar.cookies.len());
}

#[test]
fn sieve_order_does_not_matter() {
    let a = |q: &str| q.contains('a');
    let b = |q: &str| q.len() > 5;
    let mut s1: CookieSieve<fn(&str) -> bool> = CookieSieve::default();
    s1.add_filter(a);
    s1.add_filter(b);
    let mut s2: CookieSieve<fn(&str) -> bool> = CookieSieve::default();
    s2.add_filter(b);
    s2.add_filter(a);
    for q in ["apple", "banana", "cherry!", ""] {
        assert_eq!(s1.filter(q), s2.filter(q));
    }
}

#[test]
fn partial_weights_are_rejected() {
    let r = CookieCabinet::from_string_list(&tokens("15% a 85% b 10% c"), "embed:");
    assert_eq!(Err(CookieError::PartialWeights), r.map(|c| c.shelves.len()));
    let r = CookieCabinet::from_string_list(&tokens("15% a b"), "embed:");
    assert_eq!(Err(CookieError::PartialWeights), r.map(|c| c.shelves.len()));
}

#[test]
fn weights_within_tolerance_are_accepted() {
    let c = CookieCabinet::from_string_list(&tokens("33.33333% a 66.66667% b c"), "embed:").unwrap();
    let w: Vec<u64> = c.shelves.iter().map(|s| s.probability).collect();
    assert_eq!(vec![33_333_330, 66_666_670, 0], w);
}

#[test]
fn malformed_and_dangling_weights() {
    let r = CookieCabinet::from_string_list(&tokens("abc% a"), "embed:");
    assert_eq!(Err(CookieError::MalformedWeight), r.map(|c| c.shelves.len()));
    let r = CookieCabinet::from_string_list(&tokens("1.2.3% a"), "embed:");
    assert_eq!(Err(CookieError::MalformedWeight), r.map(|c| c.shelves.len()));
    let r = CookieCabinet::from_string_list(&tokens("a 100%"), "embed:");
    assert_eq!(Err(CookieError::DanglingWeight), r.map(|c| c.shelves.len()));
    let r = CookieCabinet::from_string_list(&tokens("50% 50% a"), "embed:");
    assert_eq!(Err(CookieError::DanglingWeight), r.map(|c| c.shelves.len()));
    let r = CookieCabinet::from_string_list(&tokens("150% a"), "embed:");
    assert_eq!(Err(CookieError::PartialWeights), r.map(|c| c.shelves.len()));
}

#[test]
fn weight_tokens_read_exactly() {
    let read = |s: &str| parse_weight(&s.chars().collect());
    assert_eq!(Ok(15 * PERCENT), read("15"));
    assert_eq!(Ok(12_500_000), read("12.5"));
    assert_eq!(Ok(500_000), read(".5"));
    assert_eq!(Ok(7 * PERCENT), read("7."));
    assert_eq!(Ok(1), read("0.000001"));
    assert_eq!(Ok(FULL), read("0100"));
    assert_eq!(Err(CookieError::MalformedWeight), read(""));
    assert_eq!(Err(CookieError::MalformedWeight), read("."));
    assert_eq!(Err(CookieError::MalformedWeight), read("1.2.3"));
    assert_eq!(Err(CookieError::MalformedWeight), read("-5"));
    assert_eq!(Ok(100_000_001), read("100.000001"));
    assert_eq!(Ok(fortune::cookie::weight::OVER_FULL), read("101"));
    assert_eq!(Ok(fortune::cookie::weight::OVER_FULL), read("123456789012345678901234567890"));
    assert_eq!(Ok(1_234_568), read("1.2345678"));
    assert_eq!(Ok(1_234_567), read("1.23456749"));
    assert_eq!(Ok(1), read("0.0000005"));
    assert_eq!(Ok(0), read("0.0000004"));
    assert_eq!(Ok(FULL), read("99.9999995"));
    assert_eq!(Err(CookieError::MalformedWeight), read("1.2345678x"));
}

#[test]
fn tolerance_is_judged_on_the_exact_sum() {
    let ok = |line: &str| CookieCabinet::from_string_list(&tokens(line), "embed:").is_ok();
    assert!(ok("100.00005% a"));
    assert!(ok("100.0001% a"));
    assert!(ok("99.9999% a"));
    assert!(ok("99.99990000000000000000000001% a"));
    assert!(!ok("99.9998999999% a"));
    assert!(!ok("100.00010000001% a"));
    assert!(!ok("100.0001000000000000000000000001% a"));
    assert!(ok("50.00005% a 50.00005% b"));
    assert!(!ok("50.00005% a 50.000050000001% b"));
    assert!(ok("33.33333333333333% a 33.33333333333333% b 33.33333333333334% c"));
    assert!(ok("0% a 0.0% b"));
    assert!(!ok("0.00000001% a b"));
    let c = CookieCabinet::from_string_list(&tokens("100.00005% a"), "embed:").unwrap();
    assert_eq!(100_000_050, c.shelves[0].probability);
}

#[test]
fn long_fractions_are_rounded_to_millionths() {
    let c = CookieCabinet::from_string_list(&tokens("99.9999999% alpha"), "embed:").unwrap();
    assert_eq!(FULL, c.shelves[0].probability);
    let c = CookieCabinet::from_string_list(
        &tokens("33.3333333% a 33.3333333% b 33.3333333% c"),
        "embed:",
    )
    .unwrap();
    let w: Vec<u64> = c.shelves.iter().map(|s| s.probability).collect();
    assert_eq!(vec![33_333_333, 33_333_333, 33_333_333], w);
}

#[test]
fn spreading_adds_up() {
    assert_eq!(vec![25, 25, 50], distribute(100, &vec![1, 1, 2]));
    assert_eq!(vec![0, 0], distribute(100, &vec![0, 0]));
    assert_eq!(vec![33, 33, 34], distribute(100, &vec![1, 1, 1]));
    assert_eq!(vec![0, 0, 0], distribute(7, &vec![u64::MAX, 1, 0]));
    let parts = distribute(FULL, &vec![3, 7, 0, 11]);
    assert_eq!(FULL, parts.iter().sum::<u64>());
    assert_eq!(0, parts[2]);
}

fn jar_with(n: usize) -> CookieJar {
    let text = (0..n).map(|i| format!("quote {}", i)).collect::<Vec<_>>().join("\n%\n");
    CookieJar::from_text(&text, "j", '%').unwrap()
}

#[test]
fn normalization_sums_to_one_hundred_percent() {
    for equal_size in [false, true] {
        let mut cabinet = CookieCabinet::from_string_list(&tokens("a b"), "embed:").unwrap();
        cabinet.shelves[0].jars.push(jar_with(2));
        cabinet.shelves[0].jars.push(jar_with(2));
        cabinet.shelves[0].jars.push(jar_with(1));
        cabinet.shelves[1].jars.push(jar_with(2));
        cabinet.shelves[1].jars.push(jar_with(3));
        cabinet.calculate_prob(equal_size);
        let total: u64 = cabinet.shelves.iter().map(|s| s.probability).sum();
        assert_eq!(FULL, total);
        for shelf in cabinet.shelves.iter() {
            let jars: u64 = shelf.jars.iter().map(|j| j.probability).sum();
            assert_eq!(shelf.probability, jars);
        }
        if equal_size {
            assert_eq!(60_000_000, cabinet.shelves[0].probability);
            assert_eq!(20_000_000, cabinet.shelves[1].jars[0].probability);
        } else {
            assert_eq!(50_000_000, cabinet.shelves[0].probability);
            assert_eq!(10_000_000, cabinet.shelves[0].jars[2].probability);
        }
    }
}

#[test]
fn given_weights_are_kept() {
    let mut cabinet = CookieCabinet::from_string_list(&tokens("60% a 40% b"), "embed:").unwrap();
    cabinet.shelves[0].jars.push(jar_with(2));
    cabinet.shelves[0].jars.push(jar_with(9));
    cabinet.shelves[1].jars.push(jar_with(1));
    cabinet.calculate_prob(false);
    assert_eq!(60 * PERCENT, cabinet.shelves[0].probability);
    assert_eq!(40 * PERCENT, cabinet.shelves[1].jars[0].probability);
    let jars: u64 = cabinet.shelves[0].jars.iter().map(|j| j.probability).sum();
    assert_eq!(60 * PERCENT, jars);
}

#[test]
fn sampling_covers_the_quotes() {
    let mut cabinet = CookieCabinet::from_string_list(&tokens("a"), "embed:").unwrap();
    cabinet.shelves[0].jars.push(jar_with(4));
    cabinet.calculate_prob(false);
    let mut rng = rand::thread_rng();
    let mut seen: HashMap<String, usize> = HashMap::new();
    for _ in 0..2000 {
        let c = cabinet.sample(&mut rng).unwrap();
        *seen.entry(c.content.clone()).or_insert(0) += 1;
    }
    assert!(seen.len() >= 2);
    assert_eq!(4, seen.len());
    for (_, n) in seen.iter() {
        assert!(n.abs_diff(500) < 150, "got {}", n);
    }
}

#[test]
fn shelves_of_no_jars_are_left_out_of_sampling() {
    let mut cabinet = CookieCabinet::default();
    cabinet.push(CookieShelf::new("empty", 0));
    cabinet.push(CookieShelf::new("full", 0));
    cabinet.shelves[1].jars.push(jar_with(3));
    cabinet.calculate_prob(false);
    assert_eq!(0, cabinet.shelves[0].probability);
    assert_eq!(FULL, cabinet.shelves[1].probability);
    let mut rng = rand::thread_rng();
    for _ in 0..50 {
        assert!(cabinet.sample(&mut rng).is_some());
    }
}

#[test]
fn length_predicates_count_the_newline() {
    assert!(is_short("apple", 6));
    assert!(!is_short("banana", 6));
    assert!(is_long("banana", 6));
    assert!(!is_long("apple", 6));
    assert!(is_short("子", 4));
    assert!(!is_short("子", 3));
}

#[test]
fn quote_patterns_search_the_text() {
    let p = QuotePattern::new("app", false).unwrap();
    assert!(p.is_match("an apple"));
    assert!(!p.is_match("An APPLE"));
    let q = QuotePattern::new("app", true).unwrap();
    assert!(q.is_match("An APPLE"));
    assert!(!q.is_match("banana"));
    let r = QuotePattern::new("^b.n", false).unwrap();
    assert!(r.is_match("banana"));
    assert!(!r.is_match("^b.n"));
    assert!(matches!(QuotePattern::new("(unclosed", false), Err(CookieError::InvalidPattern)));
}

#[test]
fn ordering_sorts_and_keeps_every_quote() {
    let mut jar = CookieJar::from_text("pear\n%\nApple\n%\nbanana\n%\napple", "f", '%').unwrap();
    jar.order(false);
    let texts: Vec<&str> = jar.cookies.iter().map(|c| c.content.as_str()).collect();
    assert_eq!(vec!["Apple", "apple", "banana", "pear"], texts);
    assert_eq!(fortune::cookie::FLAGS_ORDERED, jar.flags);

    let mut jar = CookieJar::from_text("pear\n%\nBanana\n%\napple\n%\nApple", "f", '%').unwrap();
    jar.order(true);
    let texts: Vec<&str> = jar.cookies.iter().map(|c| c.content.as_str()).collect();
    assert_eq!(vec!["apple", "Apple", "Banana", "pear"], texts);
}

#[test]
fn shuffling_keeps_every_quote() {
    let mut jar = jar_with(20);
    let mut before: Vec<String> = jar.cookies.iter().map(|c| c.content.clone()).collect();
    jar.shuffle(&mut rand::thread_rng());
    let mut after: Vec<String> = jar.cookies.iter().map(|c| c.content.clone()).collect();
    before.sort();
    after.sort();
    assert_eq!(before, after);
    assert_eq!(fortune::cookie::FLAGS_RANDOMIZED, jar.flags);
}
