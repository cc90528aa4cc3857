use search_engine::field_extract::{extract_fields, join_strings, ExtractedFields, FieldPatterns};

fn extract(raw: &str) -> ExtractedFields {
    let p = FieldPatterns::new().unwrap();
    extract_fields(raw, &p)
}

#[test]
fn extracts_title() {
    let raw = "# My Title\n\nsome body text";
    let f = extract(raw);
    assert_eq!(f.title.trim(), "My Title");
}

#[test]
fn code_does_not_bleed_into_body() {
    let raw = "# Title\n\n```python\nprint('hello')\n```\n\nsome body";
    let f = extract(raw);
    assert!(f.code.contains("print"), "code missing from code field");
    assert!(!f.body.contains("print"), "code bled into body");
}

#[test]
fn strips_emphasis_from_body_not_code() {
    let raw = "# Title\n\n**bold text** here\n\n```\nfn foo() -> *mut T\n```";
    let f = extract(raw);
    assert!(!f.body.contains("**"), "** not stripped from body");
    assert!(f.code.contains("*mut T"), "* incorrectly stripped from code");
}

#[test]
fn empty_doc_does_not_panic() {
    let f = extract("");
    assert!(f.title.is_empty());
    assert!(f.code.is_empty());
}

#[test]
fn headers_are_joined_with_spaces() {
    let f = extract("# Top\n\n## First\n\ntext\n\n### Second\n\n#### Third\n");
    assert_eq!(f.title, "Top");
    assert_eq!(f.headers, "First Second Third");
    assert!(!f.body.contains("First"));
    assert!(f.body.contains("text"));
}

#[test]
fn only_the_first_h1_is_the_title() {
    let f = extract("# One\n\n# Two\n");
    assert_eq!(f.title, "One");
    assert!(!f.body.contains("Two"));
}

#[test]
fn inline_code_goes_to_code_field() {
    let f = extract("Call `s3:GetObject` on the bucket");
    assert_eq!(f.code, "s3:GetObject");
    assert!(!f.body.contains("GetObject"));
    assert!(f.body.contains("bucket"));
}

#[test]
fn fenced_then_inline_code_joined_by_newline() {
    let f = extract("Use `ls` then\n\n```sh\necho hi\n```\n");
    assert_eq!(f.code, "echo hi\n\nls");
}

#[test]
fn links_keep_their_text_and_images_vanish() {
    let f = extract("See [the guide](https://example.com) and ![logo](logo.png) here");
    assert!(f.body.contains("the guide"));
    assert!(!f.body.contains("example.com"));
    assert!(!f.body.contains("logo"));
}

#[test]
fn join_strings_puts_separator_between_parts() {
    let parts = vec!["a".to_string(), "b".to_string(), "c".to_string()];
    assert_eq!(join_strings(&parts, ", "), "a, b, c");
    assert_eq!(join_strings(&Vec::new(), ", "), "");
    assert_eq!(join_strings(&vec!["x".to_string()], ", "), "x");
}
