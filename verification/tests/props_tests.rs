use mdppet::record;
use mdppet::snip::{get_snippet_segments, Snippet, SnippetBody};
use std::collections::BTreeMap;

#[test]
fn empty_document_yields_no_segments() {
    let text = String::new();
    assert_eq!(get_snippet_segments(&text).len(), 0);
    assert!(Snippet::try_from_markdown(text.as_str()).is_none());
}

#[test]
fn no_header_document_yields_no_segments() {
    let text = String::from("Just prose here.\n\nA list:\n- one\n- two\n\n```rust\nnot a block\n```\n");
    assert_eq!(get_snippet_segments(&text).len(), 0);
    assert!(Snippet::try_from_markdown(text.as_str()).is_none());
}

#[test]
fn single_block_round_trip() {
    let text = String::from(
        "# hello/hello/rust\n\nRust's HelloWorld code\n\n```rust\nprintln!(\"Hello World!\");\n```\n",
    );
    let segments = get_snippet_segments(&text);
    assert_eq!(segments.len(), 1);
    let snip = Snippet::from_markdown(segments[0]);
    assert_eq!(snip.get_identifier().as_str(), "hello");
    assert_eq!(snip.get_prefix().as_str(), "hello");
    assert_eq!(snip.get_scope().as_str(), "rust");
    assert_eq!(snip.get_description(), &vec![String::from("Rust's HelloWorld code")]);
    assert_eq!(snip.get_body(), &vec![String::from("println!(\"Hello World!\");")]);
}

#[test]
fn three_blocks_keep_document_order() {
    let text = String::from(
        "# a/p1/s1\n\nfirst\n\n```\none\n```\n\n\
         # e/p2/s2\n\nsecond\n\n```\ntwo\n```\n\n\
         # abc/p3/s3\n\nthird\n\n```\nthree\n```\n",
    );
    let segments = get_snippet_segments(&text);
    assert_eq!(segments.len(), 3);
    let ids: Vec<String> = segments
        .iter()
        .map(|&md| Snippet::from_markdown(md).get_identifier().clone())
        .collect();
    assert_eq!(ids, vec![String::from("a"), String::from("e"), String::from("abc")]);
}

#[test]
fn two_line_description_and_body() {
    let text = String::from(
        "# k/k/txt\n\nline one\nline two\n\n```\nbody one\nbody two\n```\n",
    );
    let snip = Snippet::from_markdown(text.as_str());
    assert_eq!(snip.get_description().len(), 2);
    assert_eq!(snip.get_body().len(), 2);
    assert_eq!(snip.get_description(), &vec![String::from("line one"), String::from("line two")]);
    assert_eq!(snip.get_body(), &vec![String::from("body one"), String::from("body two")]);
}

#[test]
fn duplicate_identifier_last_wins() {
    let text = String::from(
        "# x/first/rust\n\nearlier\n\n```\nold body\n```\n\n\
         # x/second/rust\n\nlater\n\n```\nnew body\n```\n",
    );
    let mut mapping: BTreeMap<String, (String, Vec<String>)> = BTreeMap::new();
    for md in get_snippet_segments(&text) {
        let snip = Snippet::from_markdown(md);
        mapping.insert(
            snip.get_identifier().clone(),
            (snip.get_prefix().clone(), snip.get_body().clone()),
        );
    }
    assert_eq!(mapping.len(), 1);
    let entry = &mapping[&String::from("x")];
    assert_eq!(entry.0.as_str(), "second");
    assert_eq!(entry.1, vec![String::from("new body")]);
}

#[test]
fn trailing_blank_lines_are_stripped() {
    let text = String::from("# t/t/sh\n\ndescribed\n\n```\nkept line\n\n\n```\n");
    let snip = Snippet::from_markdown(text.as_str());
    assert_eq!(snip.get_body(), &vec![String::from("kept line")]);
}

#[test]
fn all_blank_body_keeps_one_empty_line() {
    let text = String::from("# t/t/sh\n\ndescribed\n\n```\n\n```\n");
    let snip = Snippet::from_markdown(text.as_str());
    assert_eq!(snip.get_body(), &vec![String::new()]);
}

#[test]
fn from_text_drops_trailing_blank_lines() {
    let snip = Snippet::from_text("i", "p", "s", "line1\nline2\n\n\n", "d  \n");
    assert_eq!(snip.get_identifier().as_str(), "i");
    assert_eq!(snip.get_prefix().as_str(), "p");
    assert_eq!(snip.get_scope().as_str(), "s");
    assert_eq!(snip.get_body(), &vec![String::from("line1"), String::from("line2")]);
    assert_eq!(snip.get_description(), &vec![String::from("d  ")]);
}

#[test]
fn from_text_keeps_trailing_spaces_of_last_line() {
    let snip = Snippet::from_text("i", "p", "s", "x  \n", "d\n");
    assert_eq!(snip.get_body(), &vec![String::from("x  ")]);
    assert_eq!(snip.get_description(), &vec![String::from("d")]);
}

#[test]
fn whitespace_only_trailing_lines_are_blank() {
    let snip = Snippet::from_text("i", "p", "s", "x\n   \n\n", "d\n\u{3000}\n");
    assert_eq!(snip.get_body(), &vec![String::from("x")]);
    assert_eq!(snip.get_description(), &vec![String::from("d")]);
}

#[test]
fn header_token_may_not_hold_unicode_whitespace() {
    let text = String::from("# a\u{a0}b/c/d\n\ndesc\n\n```\nbody\n```\n");
    assert!(Snippet::try_from_markdown(text.as_str()).is_none());
}

#[test]
fn from_text_all_blank_region_keeps_one_empty_line() {
    let snip = Snippet::from_text("i", "p", "s", "   \n\n", "");
    assert_eq!(snip.get_body(), &vec![String::new()]);
    assert_eq!(snip.get_description(), &vec![String::new()]);
}

#[test]
fn identifier_may_hold_extra_slashes() {
    let text = String::from("# a/b/c/d\n\ndesc\n\n```\nbody\n```\n");
    let snip = Snippet::from_markdown(text.as_str());
    assert_eq!(snip.get_identifier().as_str(), "a/b");
    assert_eq!(snip.get_prefix().as_str(), "c");
    assert_eq!(snip.get_scope().as_str(), "d");
}

#[test]
fn header_needs_blank_line_before_description() {
    let text = String::from("# a/b/c\ndesc\n\n```\nbody\n```\n");
    assert!(Snippet::try_from_markdown(text.as_str()).is_none());
    assert_eq!(get_snippet_segments(&text).len(), 0);
}

#[test]
fn two_token_header_is_not_a_block() {
    let text = String::from("# a/b\n\ndesc\n\n```\nbody\n```\n");
    assert!(Snippet::try_from_markdown(text.as_str()).is_none());
}

#[test]
fn unclosed_fence_is_not_a_block() {
    let text = String::from("# a/b/c\n\ndesc\n\n```\nbody\n");
    assert!(Snippet::try_from_markdown(text.as_str()).is_none());
}

#[test]
fn snippet_new_copies_fields() {
    let body = vec!["b1", "b2"];
    let description = vec!["d1"];
    let snip = Snippet::new("id", "pre", "sc", &body, &description);
    assert_eq!(snip.get_identifier().as_str(), "id");
    assert_eq!(snip.get_prefix().as_str(), "pre");
    assert_eq!(snip.get_scope().as_str(), "sc");
    assert_eq!(snip.get_body(), &vec![String::from("b1"), String::from("b2")]);
    assert_eq!(snip.get_description(), &vec![String::from("d1")]);
}

#[test]
fn snippet_body_and_record_construct() {
    let _sb = SnippetBody::new(
        String::from("pre"),
        String::from("rust"),
        vec![String::from("body")],
        vec![String::from("desc")],
    );
    let _rec = record::Snippet::new(
        String::from("pre"),
        vec![String::from("rust")],
        vec![String::from("body")],
        vec![String::from("desc")],
    );
}
