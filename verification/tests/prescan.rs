use chromelight::html::encoding::{decode, sniff_encoding, EncodingSource};
use chromelight::html::prescan::{extract_encoding_from_meta_content, prescan_meta_charset};

fn scan(html: &[u8]) -> Option<String> {
    prescan_meta_charset(html)
}

fn some(name: &str) -> Option<String> {
    Some(name.to_string())
}

#[test]
fn charset_attribute_is_found() {
    assert_eq!(scan(b"<meta charset=windows-1251>"), some("windows-1251"));
}

#[test]
fn charset_attribute_is_case_insensitive_on_tag_and_value() {
    assert_eq!(scan(b"<META CHARSET=WINDOWS-1251>"), some("windows-1251"));
}

#[test]
fn quoted_charset_values_are_supported() {
    assert_eq!(scan(br#"<meta charset="windows-1251">"#), some("windows-1251"));
    assert_eq!(scan(b"<meta charset='windows-1251'>"), some("windows-1251"));
}

#[test]
fn self_closing_slash_with_a_preceding_space_is_tolerated() {
    assert_eq!(scan(b"<meta charset=windows-1251 />"), some("windows-1251"));
}

#[test]
fn unmatched_double_quote_in_content_charset_should_yield_nothing() {
    let html = br#"<meta http-equiv='Content-Type' content='text/html; charset="windows-1251'>"#;
    assert_eq!(prescan_meta_charset(html), None);
}

#[test]
fn unmatched_single_quote_in_content_charset_should_yield_nothing() {
    let html = br#"<meta http-equiv="content-type" content='charset="shift_jis'>"#;
    assert_eq!(prescan_meta_charset(html), None);
}

#[test]
fn matched_quote_in_content_charset_should_still_be_extracted() {
    let html = br#"<meta http-equiv="content-type" content='text/html; charset="windows-1251"'>"#;
    assert_eq!(prescan_meta_charset(html), some("windows-1251"));
}

#[test]
fn self_closing_slash_glued_to_an_unquoted_value_becomes_part_of_it() {
    assert_eq!(scan(b"<meta charset=windows-1251/>"), None);
}

#[test]
fn meta_without_tag_space_is_not_a_meta_tag() {
    assert_eq!(scan(b"<meta>"), None);
}

#[test]
fn duplicate_attribute_name_keeps_the_first() {
    assert_eq!(scan(b"<meta charset=windows-1251 charset=big5>"), some("windows-1251"));
}

#[test]
fn explicit_charset_attribute_wins_over_content_regardless_of_order() {
    let html = br#"<meta http-equiv="Content-Type" content="text/html; charset=big5" charset="windows-1251">"#;
    assert_eq!(scan(html), some("windows-1251"));
}

#[test]
fn content_without_matching_http_equiv_is_ignored() {
    let html = br#"<meta content="text/html; charset=big5">"#;
    assert_eq!(scan(html), None);
}

#[test]
fn http_equiv_without_charset_in_content_is_ignored() {
    let html = br#"<meta http-equiv="Content-Type" content="text/html">"#;
    assert_eq!(scan(html), None);
}

#[test]
fn unrecognized_charset_label_does_not_stop_the_scan() {
    let html = b"<meta charset=not-a-real-encoding><meta charset=big5>";
    assert_eq!(scan(html), some("Big5"));
}

#[test]
fn other_tags_and_attributes_are_skipped_without_confusing_the_scanner() {
    let html = br#"<html lang="en" data-x="a=b/c"><head><title>hi</title>
            <meta charset=windows-1251></head></html>"#;
    assert_eq!(scan(html), some("windows-1251"));
}

#[test]
fn closing_tags_are_skipped_too() {
    assert_eq!(scan(b"</notmeta><meta charset=windows-1251>"), some("windows-1251"));
}

#[test]
fn doctype_and_processing_instructions_are_skipped() {
    let html = b"<!DOCTYPE html><?xml-stylesheet foo?><meta charset=windows-1251>";
    assert_eq!(scan(html), some("windows-1251"));
}

#[test]
fn x_user_defined_becomes_windows_1252() {
    assert_eq!(scan(b"<meta charset=x-user-defined>"), some("windows-1252"));
}

#[test]
fn utf16_meta_label_becomes_utf8() {
    assert_eq!(scan(b"<meta charset=utf-16>"), some("UTF-8"));
}

#[test]
fn empty_and_tiny_inputs_do_not_panic() {
    assert_eq!(scan(b""), None);
    assert_eq!(scan(b"<"), None);
    assert_eq!(scan(b"<m"), None);
    assert_eq!(scan(b"<meta"), None);
    assert_eq!(scan(b"<meta "), None);
    assert_eq!(scan(b"<!--"), None);
    assert_eq!(scan(b"<!-- unterminated"), None);
}

#[test]
fn truncated_meta_tag_aborts_without_a_false_match() {
    assert_eq!(scan(br#"<meta charset="windows-1251"#), None);
}

#[test]
fn prescan_ignores_bytes_beyond_the_1024_byte_window() {
    let window = vec![b'x'; 1024];
    let mut full = window.clone();
    full.extend_from_slice(b"<meta charset=big5>");
    assert_eq!(scan(&window), scan(&full));
    assert_eq!(scan(&full), None);
}

#[test]
fn content_value_charset_extraction() {
    assert_eq!(extract_encoding_from_meta_content(b"text/html; charset=koi8-r"), some("KOI8-R"));
    assert_eq!(extract_encoding_from_meta_content(b"charset = 'big5'"), some("Big5"));
    assert_eq!(extract_encoding_from_meta_content(b"charsetx; charset=utf-8"), some("UTF-8"));
    assert_eq!(extract_encoding_from_meta_content(b"text/html"), None);
    assert_eq!(extract_encoding_from_meta_content(b"charset="), None);
}

#[test]
fn bom_should_win_over_meta() {
    let mut bytes = vec![0xEF, 0xBB, 0xBF];
    bytes.extend_from_slice(b"<meta charset=windows-1251>");
    let (encoding, source) = sniff_encoding(&bytes, None);
    assert_eq!(encoding, "UTF-8");
    assert_eq!(source, EncodingSource::Bom);
}

#[test]
fn utf16le_bom_should_be_detected() {
    let mut bytes = vec![0xFF, 0xFE];
    bytes.extend_from_slice(b"h\0i\0");
    let (encoding, source) = sniff_encoding(&bytes, None);
    assert_eq!(encoding, "UTF-16LE");
    assert_eq!(source, EncodingSource::Bom);
}

#[test]
fn transport_label_should_beat_prescan() {
    let (encoding, source) = sniff_encoding(b"<meta charset=windows-1251>", Some("utf-8"));
    assert_eq!(encoding, "UTF-8");
    assert_eq!(source, EncodingSource::TransportLabel);
}

#[test]
fn meta_charset_should_be_found_in_first_1024_bytes() {
    let (encoding, source) = sniff_encoding(b"<html><head><meta charset=windows-1251></head></html>", None);
    assert_eq!(encoding, "windows-1251");
    assert_eq!(source, EncodingSource::MetaPrescan);
}

#[test]
fn meta_charset_beyond_1024_bytes_should_be_ignored() {
    let mut bytes = vec![b' '; 1100];
    bytes.extend_from_slice(b"<meta charset=windows-1251>");
    let (encoding, source) = sniff_encoding(&bytes, None);
    assert_eq!(encoding, "UTF-8");
    assert_eq!(source, EncodingSource::Default);
}

#[test]
fn meta_http_equiv_content_type_should_be_parsed() {
    let bytes = br#"<meta http-equiv="Content-Type" content="text/html; charset=koi8-r">"#;
    let (encoding, source) = sniff_encoding(bytes, None);
    assert_eq!(encoding, "KOI8-R");
    assert_eq!(source, EncodingSource::MetaPrescan);
}

#[test]
fn meta_inside_comment_should_be_ignored() {
    let (encoding, source) = sniff_encoding(b"<!-- <meta charset=big5> -->", None);
    assert_eq!(encoding, "UTF-8");
    assert_eq!(source, EncodingSource::Default);
}

#[test]
fn unknown_label_should_fall_back_to_default() {
    let (encoding, source) = sniff_encoding(b"<html></html>", Some("not-a-real-encoding"));
    assert_eq!(encoding, "UTF-8");
    assert_eq!(source, EncodingSource::Default);
}

#[test]
fn utf16_meta_label_should_become_utf8() {
    let (encoding, source) = sniff_encoding(b"<meta charset=utf-16>", None);
    assert_eq!(encoding, "UTF-8");
    assert_eq!(source, EncodingSource::MetaPrescan);
}

#[test]
fn x_user_defined_meta_label_should_become_windows_1252() {
    let (encoding, source) = sniff_encoding(b"<meta charset=x-user-defined>", None);
    assert_eq!(encoding, "windows-1252");
    assert_eq!(source, EncodingSource::MetaPrescan);
}

#[test]
fn decode_should_replace_invalid_sequences_not_fail() {
    let (text, encoding, source) = decode(b"hello \x80\x81 world", None);
    assert_eq!(encoding, "UTF-8");
    assert_eq!(source, EncodingSource::Default);
    assert!(text.contains('\u{FFFD}'));
    assert!(text.starts_with("hello "));
    assert!(text.ends_with(" world"));
}

#[test]
fn decode_should_strip_a_bom_that_matches_the_sniffed_encoding() {
    let mut bytes = vec![0xEF, 0xBB, 0xBF];
    bytes.extend_from_slice("héllo".as_bytes());
    let (text, encoding, source) = decode(&bytes, None);
    assert_eq!(encoding, "UTF-8");
    assert_eq!(source, EncodingSource::Bom);
    assert_eq!(text, "héllo");
}

#[test]
fn decode_uses_the_sniffed_single_byte_encoding() {
    let mut bytes = b"<meta charset=windows-1251>".to_vec();
    bytes.push(0xC0);
    let (text, encoding, _) = decode(&bytes, None);
    assert_eq!(encoding, "windows-1251");
    assert!(text.ends_with('\u{0410}'));
}
