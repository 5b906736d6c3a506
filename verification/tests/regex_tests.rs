use mtree::regex::{
    MAX_CACHE_SIZE, cache_size, cache_size_setting, contains_nul, regex_new, size_of_number, unescape, Regex, RegexCache,
    RegexError,
};
use std::cmp::Ordering;

#[test]
fn unescape_replaces_escaped_slashes() {
    assert_eq!(unescape("a\\/b\\/"), "a/b/");
    assert_eq!(unescape("\\\\/"), "\\/");
    assert_eq!(unescape("\\"), "\\");
    assert_eq!(unescape("/\\x\u{e9}"), "/\\x\u{e9}");
    assert_eq!(unescape(""), "");
}

#[test]
fn nul_is_found_anywhere() {
    assert!(!contains_nul(""));
    assert!(!contains_nul("abc"));
    assert!(contains_nul("\0"));
    assert!(contains_nul("ab\0"));
}

#[test]
fn cache_size_has_floor_and_default() {
    assert_eq!(cache_size(None), 1000);
    assert_eq!(cache_size(Some(3)), 10);
    assert_eq!(cache_size(Some(10)), 10);
    assert_eq!(cache_size(Some(250)), 250);
}

#[test]
fn parsed_number_becomes_a_size() {
    assert_eq!(size_of_number(None), None);
    assert_eq!(size_of_number(Some(0)), Some(0));
    assert_eq!(size_of_number(Some(77)), Some(77));
    assert_eq!(cache_size(size_of_number(Some(77))), 77);
}

#[test]
fn cache_size_setting_is_parsed() {
    assert_eq!(cache_size_setting(None), 1000);
    assert_eq!(cache_size_setting(Some("64")), 64);
    assert_eq!(cache_size_setting(Some("4")), 10);
    assert_eq!(cache_size_setting(Some("many")), 1000);
    assert_eq!(cache_size_setting(Some("")), 1000);
    assert_eq!(cache_size_setting(Some("-5")), 1000);
    assert_eq!(cache_size_setting(Some("+12")), 12);
    assert_eq!(cache_size_setting(Some("99999999999999999999999")), 1000);
}

#[test]
fn from_str_compiles_and_prints() {
    let mut cache = RegexCache::new(10);
    let re = Regex::from_str(&mut cache, "a\\/b+").unwrap();
    assert_eq!(re.regex().inner.as_str(), "a/b+");
    assert!(re.regex().inner.is_match("xa/bbb"));
    assert!(!re.regex().inner.is_match("xa/c"));
    assert_eq!(re.to_string(), "/a/b+/");
    let copy = re.clone();
    assert_eq!(copy.to_string(), "/a/b+/");
    assert!(copy.eq(&re));
}

#[test]
fn from_str_refuses_nul_and_bad_patterns() {
    let mut cache = RegexCache::new(10);
    match Regex::from_str(&mut cache, "a\0b") {
        Err(RegexError::Syntax(message)) => assert_eq!(message, "regex contained NUL byte"),
        _ => panic!("a pattern with NUL was taken"),
    }
    assert!(matches!(Regex::from_str(&mut cache, "foo(bar"), Err(RegexError::Syntax(_))));
    assert!(matches!(
        Regex::from_str(&mut cache, "\\w{100000}"),
        Err(RegexError::CompiledTooBig(_))
    ));
    assert_eq!(cache.len(), 0);
}

#[test]
fn expressions_compare_by_their_text() {
    let mut cache = RegexCache::new(10);
    let a = Regex::from_str(&mut cache, "abc").unwrap();
    let b = Regex::from_str(&mut cache, "abd").unwrap();
    let a2 = Regex::from_str(&mut cache, "abc").unwrap();
    let short = Regex::from_str(&mut cache, "ab").unwrap();
    let accent = Regex::from_str(&mut cache, "\u{e9}").unwrap();
    assert!(a.eq(&a2));
    assert!(!a.eq(&b));
    assert_eq!(a.cmp(&b), Ordering::Less);
    assert_eq!(b.cmp(&a), Ordering::Greater);
    assert_eq!(a.cmp(&a2), Ordering::Equal);
    assert_eq!(short.cmp(&a), Ordering::Less);
    assert_eq!(a.cmp(&accent), Ordering::Less);
    assert_eq!(a.partial_cmp(&b), Some(Ordering::Less));
}

#[test]
fn cache_keeps_the_most_recent_patterns() {
    let mut cache = RegexCache::new(2);
    assert_eq!(cache.len(), 0);
    assert_eq!(regex_new(&mut cache, "a+").unwrap().inner.as_str(), "a+");
    assert_eq!(cache.len(), 1);
    assert_eq!(regex_new(&mut cache, "a+").unwrap().inner.as_str(), "a+");
    assert_eq!(cache.len(), 1);
    assert_eq!(regex_new(&mut cache, "b+").unwrap().inner.as_str(), "b+");
    assert_eq!(cache.len(), 2);
    assert_eq!(regex_new(&mut cache, "c+").unwrap().inner.as_str(), "c+");
    assert_eq!(cache.len(), 2);
    assert!(regex_new(&mut cache, "(").is_err());
    assert_eq!(cache.len(), 2);
}

#[test]
fn cache_is_made_for_sizes_within_the_limit() {
    assert!(RegexCache::try_new(0).is_none());
    assert!(RegexCache::try_new(MAX_CACHE_SIZE + 1).is_none());
    let cache = RegexCache::try_new(10).unwrap();
    assert_eq!(cache.len(), 0);
}

#[test]
fn compile_errors_are_those_of_the_compiler() {
    for text in ["foo(bar", "a{2,1}", "\\w{100000}", "[z-a]"] {
        let want = regex::Regex::new(text).err().unwrap();
        let mut cache = RegexCache::new(3);
        let first = regex_new(&mut cache, text).err().unwrap();
        let again = regex_new(&mut cache, text).err().unwrap();
        assert_eq!(first, want);
        assert_eq!(again, want);
        let got = Regex::from_str(&mut cache, text).err().unwrap();
        match (got, want) {
            (RegexError::Syntax(a), regex::Error::Syntax(b)) => assert_eq!(a, b),
            (RegexError::CompiledTooBig(a), regex::Error::CompiledTooBig(b)) => assert_eq!(a, b),
            _ => panic!("the error changed on the way"),
        }
    }
}
