use fortune::cookie::embed::Embedded;
use fortune::cookie::source::{select_sources, wanted_source};
use fortune::cookie::CookieError;

fn bundle() -> Vec<String> {
    ["en/fortunes", "en/off/offensive", "zh/lunyu", "zh/tang300"]
        .iter()
        .map(|s| s.to_string())
        .collect()
}

#[test]
fn test_embedded() {
    let names = bundle();
    let path = "embed:zh";
    assert_eq!(Embedded::contains(path, &names), true, "should found {}", path);
    assert_eq!(
        vec!["zh/lunyu"],
        Embedded::find("embed:zh/lunyu", &names),
        "find(embed:zh/lunyu) should return [zh/lunyu]"
    );
    assert!(
        Embedded::find("embed:", &names).len() > 1,
        "find(embed:) should return more than 1 entry"
    );

    assert_eq!(
        "embed:file1",
        Embedded::format_path("file1"),
        "format_path(file1) should return 'embed:file1'"
    );
    assert_eq!(
        "embed:file1",
        Embedded::format_path("embed:file1"),
        "format_path(embed:file1) should return the same value 'embed:file1'"
    );
    assert_eq!(
        "embed:path/to/file1",
        Embedded::format_path("path/to/file1"),
        "format_path(path/to/file1) should return 'embed:path/to/file1'"
    );

    assert_eq!(
        "file1",
        Embedded::trim_prefix("file1"),
        "trim_prefix(file1) should return 'file1'"
    );
    assert_eq!(
        "file1",
        Embedded::trim_prefix("embed:file1"),
        "trim_prefix(embed:file1) should return 'file1'"
    );
    assert_eq!(
        "path/to/file1",
        Embedded::trim_prefix("embed:path/to/file1"),
        "trim_prefix(embed:path/to/file1) should return 'path/to/file1'"
    );
}

#[test]
fn bundle_lookup_misses() {
    let names = bundle();
    assert!(!Embedded::contains("embed:fr", &names));
    assert!(Embedded::find("embed:fr", &names).is_empty());
    assert_eq!(vec!["en/fortunes", "en/off/offensive"], Embedded::find("en", &names));
}

#[test]
fn locale_picks_the_bundled_language() {
    let names = bundle();
    assert_eq!(
        Ok("embed:zh".to_string()),
        Embedded::locale_location(Some("zh-Hans-CN"), &names)
    );
    assert_eq!(
        Ok("embed:en".to_string()),
        Embedded::locale_location(Some("fr-FR"), &names)
    );
    assert_eq!(Ok("embed:en".to_string()), Embedded::locale_location(None, &names));
    assert_eq!(
        Err(CookieError::InvalidLocale),
        Embedded::locale_location(Some("not a tag!"), &names)
    );
    assert_eq!("embed:zh", Embedded::language_location("zh", &names));
}

#[test]
fn offensive_sources_are_told_apart() {
    assert_eq!(Ok(true), wanted_source("data", "data/apple", true, false));
    assert_eq!(Ok(false), wanted_source("data", "data/off/rude", true, false));
    assert_eq!(Ok(true), wanted_source("data", "data/off/rude", false, true));
    assert_eq!(Ok(true), wanted_source("data", "data/x/rude-o", false, true));
    assert_eq!(Ok(false), wanted_source("data", "data/apple", false, true));
    assert_eq!(Ok(true), wanted_source("data", "data/apple", true, true));
    assert_eq!(Ok(false), wanted_source("data", "data/apple.dat", true, true));
    assert_eq!(Ok(false), wanted_source("data", "data/.hidden", true, true));
    assert_eq!(Ok(false), wanted_source("data", "data/apple", false, false));
    assert_eq!(
        Err(CookieError::InvalidPattern),
        wanted_source("da[ta", "da[ta/apple", true, true)
    );
}

#[test]
fn sources_keep_their_order() {
    let paths: Vec<String> = ["d/b", "d/a.dat", "d/off/c", "d/a", "d/z-o"]
        .iter()
        .map(|s| s.to_string())
        .collect();
    assert_eq!(
        vec!["d/b", "d/a"],
        select_sources("d", &paths, true, false).unwrap()
    );
    assert_eq!(
        vec!["d/off/c", "d/z-o"],
        select_sources("d", &paths, false, true).unwrap()
    );
}

#[test]
fn empty_selection_is_not_found() {
    let paths: Vec<String> = ["d/a.dat", "d/.hidden"].iter().map(|s| s.to_string()).collect();
    assert_eq!(Err(CookieError::NotFound), select_sources("d", &paths, true, true));
    assert_eq!(Err(CookieError::NotFound), select_sources("d", &Vec::new(), true, true));
    let off: Vec<String> = vec!["d/plain".to_string()];
    assert_eq!(Err(CookieError::NotFound), select_sources("d", &off, false, true));
}
