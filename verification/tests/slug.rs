use pasta::slug::{Slug, SlugError};
use pasta::util::LowerAlphanumeric;

fn is_lower_alnum(c: char) -> bool {
    c.is_ascii_lowercase() || c.is_ascii_digit()
}

#[test]
fn parse_accepts_valid_slugs() {
    let slug = Slug::parse("hello-world_1.x").unwrap();
    assert_eq!(slug.as_str(), "hello-world_1.x");
    assert_eq!(Slug::parse("abc").unwrap().as_str(), "abc");
    let longest = "a".repeat(32);
    assert_eq!(Slug::parse(&longest).unwrap().as_str(), longest);
}

#[test]
fn parse_accepts_unicode_alphanumerics() {
    let slug = Slug::parse("héllo").unwrap();
    assert_eq!(slug.as_str(), "héllo");
}

#[test]
fn parse_rejects_bad_lengths() {
    assert_eq!(Slug::parse("ab").err(), Some(SlugError::BadLength));
    assert_eq!(Slug::parse("").err(), Some(SlugError::BadLength));
    assert_eq!(Slug::parse(&"a".repeat(33)).err(), Some(SlugError::BadLength));
    // length is counted in bytes: 16 two-byte characters and one more
    assert_eq!(Slug::parse(&"é".repeat(17)).err(), Some(SlugError::BadLength));
    assert_eq!(SlugError::BadLength.message(), "Slug length must be within 3..=32");
}

#[test]
fn parse_rejects_bad_characters() {
    assert_eq!(Slug::parse("abc/def").err(), Some(SlugError::InvalidChar));
    assert_eq!(Slug::parse("a b c").err(), Some(SlugError::InvalidChar));
    assert_eq!(Slug::parse("abc:").err(), Some(SlugError::InvalidChar));
    assert_eq!(SlugError::InvalidChar.message(), "Invalid character in slug");
}

#[test]
fn parse_of_as_str_gives_the_slug_back() {
    let slug = Slug::parse("round-trip").unwrap();
    let again = Slug::parse(slug.as_str()).unwrap();
    assert_eq!(again.as_str(), slug.as_str());
}

#[test]
fn new_makes_lower_alphanumeric_slugs() {
    for len in [3usize, 8, 32] {
        let slug = Slug::new(len);
        assert_eq!(slug.as_str().len(), len);
        assert!(slug.as_str().chars().all(is_lower_alnum));
    }
    let generated = Slug::new(12);
    assert_eq!(Slug::parse(generated.as_str()).unwrap().as_str(), generated.as_str());
}

#[test]
fn to_path_appends_dash_and_five_random_characters() {
    let slug = Slug::parse("my-paste").unwrap();
    let path = slug.to_path();
    assert_eq!(path.len(), "my-paste".len() + 6);
    assert!(path.starts_with("my-paste-"));
    assert!(path["my-paste-".len()..].chars().all(is_lower_alnum));
    assert!(!path.contains('/'));
}

#[test]
fn paths_of_parsed_slugs_hold_no_separator() {
    for text in ["a.b", "...", "x_y-z", "héllo"] {
        let path = Slug::parse(text).unwrap().to_path();
        assert!(!path.contains('/'));
        assert!(!path.contains('\\'));
        assert!(path.starts_with(text));
    }
    assert_eq!(Slug::parse("../etc").err(), Some(SlugError::InvalidChar));
    assert_eq!(Slug::parse("a\\b").err(), Some(SlugError::InvalidChar));
}

#[test]
fn every_generated_slug_parses_back() {
    for len in [3usize, 8, 20, 32] {
        let slug = Slug::new(len);
        let again = Slug::parse(slug.as_str()).unwrap();
        assert_eq!(again.as_str(), slug.as_str());
    }
}

#[test]
fn unique_candidate_lengths_run_from_8_to_32() {
    let lens = Slug::unique_candidate_lengths();
    assert_eq!(lens, vec![8, 10, 12, 14, 16, 18, 20, 22, 24, 26, 28, 30, 32]);
}

#[test]
fn lower_alphanumeric_alphabet() {
    let d = LowerAlphanumeric;
    assert_eq!(d.char_at(0), 'a');
    assert_eq!(d.char_at(25), 'z');
    assert_eq!(d.char_at(26), '0');
    assert_eq!(d.char_at(35), '9');
    for _ in 0..100 {
        assert!(is_lower_alnum(d.sample()));
    }
}
