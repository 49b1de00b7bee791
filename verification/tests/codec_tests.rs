use fadenote::codec::{
    build_full_content, extract_content_only, extract_created_at_from_content,
    extract_first_line_preview, parse_field, parse_id_from_content, update_field,
};

fn bytes_of(s: &str) -> Vec<u8> {
    s.as_bytes().to_vec()
}

fn text_of(v: &[u8]) -> String {
    String::from_utf8(v.to_vec()).unwrap()
}

#[test]
fn build_full_content_exact() {
    let content = build_full_content(
        &bytes_of("n1"),
        &bytes_of("2024-01-01T00:00:00+00:00"),
        &bytes_of("hello"),
    );
    assert_eq!(
        text_of(&content),
        "---\nid: n1\ncreatedAt: 2024-01-01T00:00:00+00:00\n---\nhello"
    );
}

#[test]
fn header_round_trip_simple_body() {
    let body = bytes_of("hello\nworld\n");
    let content = build_full_content(&bytes_of("n1"), &bytes_of("2024-01-01T00:00:00+00:00"), &body);
    assert_eq!(extract_content_only(&content), body);
}

#[test]
fn header_round_trip_empty_body() {
    let content = build_full_content(&bytes_of("n1"), &bytes_of("t0"), &bytes_of(""));
    assert_eq!(extract_content_only(&content), bytes_of(""));
}

#[test]
fn extract_body_without_header_is_unchanged() {
    let content = bytes_of("just some text\nwith lines\n");
    assert_eq!(extract_content_only(&content), content);
}

#[test]
fn extract_body_of_empty_content_is_empty() {
    let content: Vec<u8> = Vec::new();
    assert_eq!(extract_content_only(&content), content);
}

#[test]
fn extract_body_strips_stacked_headers() {
    let content = bytes_of(
        "---\nid: a\ncreatedAt: t1\n---\n---\nid: b\ncreatedAt: t2\n---\nreal body",
    );
    assert_eq!(text_of(&extract_content_only(&content)), "real body");
}

#[test]
fn extract_body_keeps_block_without_required_fields() {
    let content = bytes_of("---\ntitle: hello\n---\nbody");
    assert_eq!(extract_content_only(&content), content);
}

#[test]
fn extract_body_keeps_delimiters_inside_body() {
    // a delimiter line inside the text, but no id/createdAt pair in any
    // delimited region: nothing may be stripped
    let content = bytes_of("some text\n---\nmore text\n---\nend\n");
    assert_eq!(extract_content_only(&content), content);
}

#[test]
fn delimiter_lines_may_carry_whitespace() {
    // a delimiter line counts once surrounding whitespace is removed
    let content = bytes_of("  --- \nid: n1\ncreatedAt: t\n---\t\nbody");
    assert_eq!(text_of(&extract_content_only(&content)), "body");
    assert_eq!(parse_id_from_content(&content), Some(bytes_of("n1")));
}

#[test]
fn parse_id_reads_first_block() {
    let content = bytes_of("---\nid:  n42 \ncreatedAt: t\n---\nbody");
    assert_eq!(parse_id_from_content(&content), Some(bytes_of("n42")));
}

#[test]
fn parse_id_missing_yields_none() {
    assert_eq!(parse_id_from_content(&bytes_of("no header here")), None);
    assert_eq!(parse_id_from_content(&bytes_of("---\ntitle: x\n---\n")), None);
}

#[test]
fn parse_id_ignores_lines_after_block() {
    let content = bytes_of("---\ntitle: x\n---\nid: outside\n");
    assert_eq!(parse_id_from_content(&content), None);
}

#[test]
fn parse_field_first_match_wins() {
    let content = bytes_of("---\nkind: a\nkind: b\n---\n");
    assert_eq!(
        parse_field(&content, &bytes_of("kind")),
        Some(bytes_of("a"))
    );
}

#[test]
fn extract_created_at_reads_field() {
    let content = build_full_content(&bytes_of("n1"), &bytes_of("2024-02-03T04:05:06+00:00"), &bytes_of("x"));
    assert_eq!(
        extract_created_at_from_content(&content),
        Some(bytes_of("2024-02-03T04:05:06+00:00"))
    );
}

#[test]
fn update_field_replaces_in_place() {
    let content = bytes_of("---\nid: n1\nx: 1\ncreatedAt: t\n---\nbody");
    let updated = update_field(&content, &bytes_of("x"), &bytes_of("2"));
    assert_eq!(
        text_of(&updated),
        "---\nid: n1\nx: 2\ncreatedAt: t\n---\nbody"
    );
}

#[test]
fn update_field_inserts_before_closing_delimiter() {
    let content = bytes_of("---\nid: n1\n---\nbody");
    let updated = update_field(&content, &bytes_of("x"), &bytes_of("7"));
    assert_eq!(text_of(&updated), "---\nid: n1\nx: 7\n---\nbody");
}

#[test]
fn update_field_synthesizes_block_when_none() {
    let content = bytes_of("plain body\n");
    let updated = update_field(&content, &bytes_of("x"), &bytes_of("9"));
    assert_eq!(text_of(&updated), "---\nx: 9\n---\nplain body\n");
}

#[test]
fn update_field_idempotent_on_replace() {
    let content = bytes_of("---\nid: n1\nx: 1\n---\nbody");
    let once = update_field(&content, &bytes_of("x"), &bytes_of("5"));
    let twice = update_field(&once, &bytes_of("x"), &bytes_of("5"));
    assert_eq!(once, twice);
}

#[test]
fn update_field_idempotent_on_insert() {
    let content = bytes_of("---\nid: n1\n---\nbody");
    let once = update_field(&content, &bytes_of("w"), &bytes_of("3"));
    let twice = update_field(&once, &bytes_of("w"), &bytes_of("3"));
    assert_eq!(once, twice);
}

#[test]
fn update_field_idempotent_on_synthesis() {
    let content = bytes_of("no block at all");
    let once = update_field(&content, &bytes_of("w"), &bytes_of("3"));
    let twice = update_field(&once, &bytes_of("w"), &bytes_of("3"));
    assert_eq!(once, twice);
}

#[test]
fn preview_takes_first_nonempty_line_trimmed() {
    let content = bytes_of("\n   \n  first real line  \nsecond\n");
    assert_eq!(
        extract_first_line_preview(&content),
        Some(bytes_of("first real line"))
    );
}

#[test]
fn preview_caps_at_fifty_characters() {
    let long = "abcdefghij".repeat(8);
    let content = bytes_of(&long);
    let preview = extract_first_line_preview(&content).unwrap();
    assert_eq!(preview.len(), 50);
    assert_eq!(preview, long.as_bytes()[..50].to_vec());
}

#[test]
fn preview_cap_never_splits_a_character() {
    // sixty three-byte characters: the cap counts characters, not bytes
    let long = "好".repeat(60);
    let content = bytes_of(&long);
    let preview = extract_first_line_preview(&content).unwrap();
    let text = String::from_utf8(preview).unwrap();
    assert_eq!(text.chars().count(), 50);
    assert_eq!(text, "好".repeat(50));
}

#[test]
fn preview_of_blank_content_is_none() {
    assert_eq!(extract_first_line_preview(&bytes_of("\n  \n\t\n")), None);
}

#[test]
fn welcome_content_is_the_expected_text() {
    let text = fadenote::get_welcome_content();
    assert!(text.starts_with("写点什么吧。"));
    assert!(text.ends_with("可以从托盘里再叫回来。"));
}
