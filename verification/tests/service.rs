use pasta::text::parse_usize;
use pasta::paste::{NewPaste, Paste, PasteWithUniq, PASTE_LIFETIME};
use pasta::service::{
    accepts_gzip, admit_upload, body_plan, compare_chunk, content_type_header, content_type_of,
    count_chunk, header_str, is_orphan, servable, sizes_agree,
    servable_at, storage_for, BodyPlan, ChunkStep, Rejection, Storage, MAX_CONTENT_LENGTH,
};
use pasta::slug::Slug;

fn paste(slug: &str, path: &str, expires_at: Option<i128>) -> Paste {
    Paste {
        slug: Slug::parse(slug).unwrap(),
        path: path.to_string(),
        hash: pasta::hash::Hash::of_content(b"x"),
        content_type: None,
        created_at: 0,
        expires_at,
    }
}

#[test]
fn rejection_status_codes() {
    assert_eq!(Rejection::NotFound.status_code(), 404);
    assert_eq!(Rejection::BadRequest.status_code(), 400);
    assert_eq!(Rejection::Conflict.status_code(), 409);
    assert_eq!(Rejection::LengthRequired.status_code(), 411);
    assert_eq!(Rejection::PayloadTooLarge.status_code(), 413);
}

#[test]
fn admit_upload_cases() {
    let slug = Slug::parse("abcdef").unwrap();
    assert_eq!(admit_upload(None, Some("10")).err(), Some(Rejection::Conflict));
    assert_eq!(admit_upload(Some(slug), None).err(), Some(Rejection::LengthRequired));
    assert_eq!(admit_upload(Some(slug), Some("ten")).err(), Some(Rejection::LengthRequired));
    assert_eq!(admit_upload(Some(slug), Some("")).err(), Some(Rejection::LengthRequired));
    assert_eq!(admit_upload(Some(slug), Some("-1")).err(), Some(Rejection::LengthRequired));
    assert_eq!(admit_upload(Some(slug), Some("10001")).err(), Some(Rejection::PayloadTooLarge));
    let (s, n) = admit_upload(Some(slug), Some("+10000")).unwrap();
    assert_eq!(n, MAX_CONTENT_LENGTH);
    assert_eq!(s.as_str(), "abcdef");
    assert_eq!(admit_upload(Some(slug), Some("0")).unwrap().1, 0);
}

#[test]
fn accepts_gzip_cases() {
    assert!(accepts_gzip(Some("gzip")));
    assert!(accepts_gzip(Some("deflate, gzip;q=1.0, br")));
    assert!(!accepts_gzip(Some("deflate, br")));
    assert!(!accepts_gzip(Some("gzi")));
    assert!(!accepts_gzip(None));
}

#[test]
fn body_plan_cases() {
    assert_eq!(body_plan(None), Ok(BodyPlan::Compress));
    assert_eq!(body_plan(Some(b"gzip")), Ok(BodyPlan::StoreAsIs));
    assert_eq!(body_plan(Some(b"GZIP")), Err(Rejection::BadRequest));
    assert_eq!(body_plan(Some(b"br")), Err(Rejection::BadRequest));
}

#[test]
fn count_chunk_stops_at_the_limit() {
    assert_eq!(count_chunk(0, 1024), Ok(1024));
    assert_eq!(count_chunk(9000, 1000), Ok(10000));
    assert_eq!(count_chunk(9500, 501), Err(Rejection::PayloadTooLarge));
    let mut total = 0;
    let mut refused = false;
    for _ in 0..20 {
        match count_chunk(total, 1024) {
            Ok(t) => {
                assert!(t <= MAX_CONTENT_LENGTH);
                total = t;
            }
            Err(_) => {
                refused = true;
                break;
            }
        }
    }
    assert!(refused);
    assert_eq!(total, 9 * 1024);
}

#[test]
fn storage_reuses_existing_paths() {
    let slug = Slug::parse("new-one").unwrap();
    match storage_for(Some(paste("old-one", "old-one-abcde", None)), slug) {
        Storage::Reuse(p) => assert_eq!(p, "old-one-abcde"),
        Storage::Write(_) => panic!("expected reuse"),
    }
    match storage_for(None, slug) {
        Storage::Write(p) => assert!(p.starts_with("new-one-") && p.len() == 13),
        Storage::Reuse(_) => panic!("expected a new path"),
    }
}

#[test]
fn expiry_and_serving() {
    let fresh = paste("fresh", "fresh-aaaaa", Some(100));
    assert!(!fresh.is_expired_at(50));
    assert!(!fresh.is_expired_at(100));
    assert!(fresh.is_expired_at(101));
    let forever = paste("forever", "forever-aaaaa", None);
    assert!(!forever.is_expired_at(i128::MAX));
    assert!(!forever.is_expired());
    assert!(paste("old", "old-aaaaa", Some(0)).is_expired());

    assert_eq!(servable_at(None, 0).err(), Some(Rejection::NotFound));
    assert_eq!(
        servable_at(Some(paste("fresh", "fresh-aaaaa", Some(100))), 101).err(),
        Some(Rejection::NotFound)
    );
    assert_eq!(
        servable_at(Some(paste("fresh", "fresh-aaaaa", Some(100))), 99).unwrap().path,
        "fresh-aaaaa"
    );
    assert!(servable(Some(paste("forever", "forever-aaaaa", None))).is_ok());
    assert_eq!(servable(None).err(), Some(Rejection::NotFound));
}

#[test]
fn compare_chunk_steps() {
    let content = b"hello world";
    assert_eq!(compare_chunk(content, 0, b"hello"), ChunkStep::Continue(5));
    assert_eq!(compare_chunk(content, 5, b" world"), ChunkStep::Continue(11));
    assert_eq!(compare_chunk(content, 11, b""), ChunkStep::Matched);
    assert_eq!(compare_chunk(content, 5, b""), ChunkStep::Mismatch);
    assert_eq!(compare_chunk(content, 0, b"help"), ChunkStep::Mismatch);
}

#[test]
fn chunked_comparison_of_whole_files() {
    fn run(content: &[u8], chunks: &[&[u8]]) -> ChunkStep {
        let mut offset = 0;
        for chunk in chunks.iter().chain(std::iter::once(&&b""[..])) {
            match compare_chunk(content, offset, chunk) {
                ChunkStep::Continue(next) => offset = next,
                other => return other,
            }
        }
        ChunkStep::Continue(offset)
    }
    assert_eq!(run(b"abcdef", &[b"ab", b"cd", b"ef"]), ChunkStep::Matched);
    assert_eq!(run(b"abcdef", &[b"ab", b"cx", b"ef"]), ChunkStep::Mismatch);
}

#[test]
fn orphans_are_unknown_paths() {
    let known = vec!["a-aaaaa".to_string(), "b-bbbbb".to_string()];
    assert!(!is_orphan(&known, "a-aaaaa"));
    assert!(!is_orphan(&known, "b-bbbbb"));
    assert!(is_orphan(&known, "c-ccccc"));
    assert!(is_orphan(&Vec::new(), "a-aaaaa"));
}

#[test]
fn new_paste_rows_live_seven_days() {
    let slug = Slug::parse("row-slug").unwrap();
    let hash = pasta::hash::Hash::of_content(b"row");
    let row = NewPaste::for_upload(&slug, "row-slug-abcde", hash, Some("text/plain"));
    assert_eq!(row.expires_in, "7 days");
    assert_eq!(PASTE_LIFETIME, "7 days");
    assert_eq!(row.path, "row-slug-abcde");
    assert_eq!(row.content_type, Some("text/plain"));
    assert_eq!(row.hash, hash);
    assert_eq!(row.slug.as_str(), "row-slug");
}

#[test]
fn cleanup_deletes_files_of_unique_pastes_only() {
    let unique = PasteWithUniq { paste: paste("uniq", "uniq-aaaaa", Some(0)), uniq: true };
    let shared = PasteWithUniq { paste: paste("shared", "shared-aaaaa", Some(0)), uniq: false };
    assert!(unique.deletes_file());
    assert!(!shared.deletes_file());
}

#[test]
fn header_text_is_visible_ascii() {
    assert_eq!(header_str(b"gzip, br"), Some("gzip, br"));
    assert_eq!(header_str(b"a\tb"), Some("a\tb"));
    assert_eq!(header_str(b""), Some(""));
    assert_eq!(header_str(b"bad\x7f"), None);
    assert_eq!(header_str(b"line\nbreak"), None);
    assert_eq!(header_str("é".as_bytes()), None);
}

#[test]
fn content_type_of_upload() {
    assert_eq!(content_type_of(None), Ok(None));
    assert_eq!(content_type_of(Some(b"text/plain")), Ok(Some("text/plain")));
    assert_eq!(content_type_of(Some(b"text/\x01")), Err(Rejection::BadRequest));
}

#[test]
fn content_type_header_of_stored_type() {
    let v = content_type_header("text/plain; charset=utf-8").unwrap();
    assert_eq!(v.to_str().unwrap(), "text/plain; charset=utf-8");
    assert!(content_type_header("bad\nvalue").is_none());
    assert!(content_type_header("tab\tok").is_some());
}

#[test]
fn sizes_agree_compares_lengths() {
    assert!(sizes_agree(3, b"abc"));
    assert!(!sizes_agree(4, b"abc"));
    assert!(sizes_agree(0, b""));
}

#[test]
fn parse_usize_reads_plain_decimal_numbers() {
    assert_eq!(parse_usize("0"), Some(0));
    assert_eq!(parse_usize("1024"), Some(1024));
    assert_eq!(parse_usize("+17"), Some(17));
    assert_eq!(parse_usize("007"), Some(7));
    assert_eq!(parse_usize(""), None);
    assert_eq!(parse_usize("+"), None);
    assert_eq!(parse_usize("-1"), None);
    assert_eq!(parse_usize("12a"), None);
    assert_eq!(parse_usize(" 12"), None);
    assert_eq!(parse_usize(&usize::MAX.to_string()), Some(usize::MAX));
    assert_eq!(parse_usize(&format!("{}0", usize::MAX)), None);
}
