use lumadisk::text::{
    chars_of, contains_chars, ellipsize, format_count, lowercase_chars, relative_age,
    short_extension, trim_bounds,
};

#[test]
fn format_count_groups_thousands() {
    assert_eq!(format_count(0), "0");
    assert_eq!(format_count(7), "7");
    assert_eq!(format_count(999), "999");
    assert_eq!(format_count(1000), "1,000");
    assert_eq!(format_count(12345), "12,345");
    assert_eq!(format_count(1234567), "1,234,567");
    assert_eq!(format_count(100000), "100,000");
}

#[test]
fn short_extension_labels_types() {
    assert_eq!(short_extension("no extension"), "FILE");
    assert_eq!(short_extension("zip"), "ZIP");
    assert_eq!(short_extension("markdown"), "MARKDO");
    assert_eq!(short_extension("tar.gz"), "TAR.GZ");
    assert_eq!(short_extension("é1"), "é1");
}

#[test]
fn ellipsize_cuts_long_text() {
    assert_eq!(ellipsize("short", 10), "short");
    assert_eq!(ellipsize("exactly", 7), "exactly");
    assert_eq!(ellipsize("abcdefgh", 5), "abcd…");
    assert_eq!(ellipsize("abc", 0), "…");
    assert_eq!(ellipsize("héllo wörld", 4), "hél…");
}

#[test]
fn relative_age_picks_the_unit() {
    let now = 1_000_000_000;
    assert_eq!(relative_age(0, now), "unknown");
    assert_eq!(relative_age(-5, now), "unknown");
    assert_eq!(relative_age(now, now), "1m ago");
    assert_eq!(relative_age(now - 59, now), "1m ago");
    assert_eq!(relative_age(now - 150, now), "2m ago");
    assert_eq!(relative_age(now - 3_600, now), "1h ago");
    assert_eq!(relative_age(now - 86_399, now), "23h ago");
    assert_eq!(relative_age(now - 86_400, now), "1d ago");
    assert_eq!(relative_age(now - 2_592_000, now), "30d ago");
    assert_eq!(relative_age(now - 2_592_001, now), "1mo ago");
    assert_eq!(relative_age(now - 31_536_000, now), "12mo ago");
    assert_eq!(relative_age(now - 31_536_001, now), "1y ago");
    assert_eq!(relative_age(now - 100_000_000, now), "3y ago");
    assert_eq!(relative_age(now + 10, now), "0y ago");
    assert_eq!(relative_age(now + 70_000_000, now), "-2y ago");
}

#[test]
fn lowercase_only_touches_ascii_letters() {
    let lower: String = lowercase_chars("ABC-xyz_ÄÖ.TXT").into_iter().collect();
    assert_eq!(lower, "abc-xyz_ÄÖ.txt");
}

#[test]
fn contains_chars_finds_runs() {
    let hay = chars_of("holiday-photos.jpg");
    assert!(contains_chars(&hay, &chars_of("photo")));
    assert!(contains_chars(&hay, &chars_of("")));
    assert!(contains_chars(&hay, &chars_of(".jpg")));
    assert!(!contains_chars(&hay, &chars_of("jpeg")));
    assert!(!contains_chars(&chars_of("ab"), &chars_of("abc")));
}

#[test]
fn trim_bounds_drop_white_space() {
    let text = chars_of("  \tmovie \n");
    let (start, end) = trim_bounds(&text);
    let kept: String = text[start..end].iter().collect();
    assert_eq!(kept, "movie");
    let blank = chars_of(" \u{3000} ");
    let (s2, e2) = trim_bounds(&blank);
    assert_eq!(s2, e2);
}
