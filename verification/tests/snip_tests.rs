use mdppet::snip::{get_snippet_segments, Snippet};

fn doc_single() -> String {
    String::from(
        "# hello/hello/rust\n\nRust 的 HelloWorld 代码\n\n```rust\nprintln!(\"Hello World!\");\n```\n",
    )
}

fn doc_multi() -> String {
    String::from(
        "# a/b/c\n\ndesp\n\n```rust\nprintln!(\"Hello\");\n```\n\n\
         # e/f/g\n\ndesp2\ndesp2\n\n```\nabc\n```\n\n\
         # abc/123/python,lua\n\ndesp3\ndesp4\n\n```python\nprint(\"Hello1\")\nprint(\"Hello2\")\n```\n",
    )
}

#[test]
fn test_snip_from_markdown() {
    let text = doc_single();

    let snip = Snippet::from_markdown(text.as_str());
    assert_eq!(snip.get_identifier(), &String::from("hello"));
    assert_eq!(snip.get_prefix(), &String::from("hello"));
    assert_eq!(snip.get_scope(), &String::from("rust"));
    assert_eq!(
        snip.get_body(),
        &vec![String::from("println!(\"Hello World!\");")]
    );
    assert_eq!(
        snip.get_description(),
        &vec![String::from("Rust 的 HelloWorld 代码")]
    );
}

#[test]
fn test_multi_snip_markdown_1() {
    let text: String = doc_multi();

    let snips: Vec<Snippet> = get_snippet_segments(&text)
        .iter()
        .map(|&md_text| Snippet::from_markdown(md_text))
        .collect();

    let snip1 = &snips[0];
    assert_eq!(snip1.get_identifier().as_str(), "a");
    assert_eq!(snip1.get_prefix().as_str(), "b");
    assert_eq!(snip1.get_scope().as_str(), "c");
    assert_eq!(
        snip1
            .get_description()
            .iter()
            .map(|line| line.as_str())
            .collect::<Vec<&str>>(),
        vec!["desp"]
    );
    assert_eq!(
        snip1
            .get_body()
            .iter()
            .map(|line| line.as_str())
            .collect::<Vec<&str>>(),
        vec!["println!(\"Hello\");"]
    );
}

#[test]
fn test_multi_snip_markdown_2() {
    let text: String = doc_multi();

    let snips: Vec<Snippet> = get_snippet_segments(&text)
        .iter()
        .map(|&md_text| Snippet::from_markdown(md_text))
        .collect();

    let snip1 = &snips[1];
    assert_eq!(snip1.get_identifier().as_str(), "e");
    assert_eq!(snip1.get_prefix().as_str(), "f");
    assert_eq!(snip1.get_scope().as_str(), "g");
    assert_eq!(
        snip1
            .get_description()
            .iter()
            .map(|line| line.as_str())
            .collect::<Vec<&str>>(),
        vec!["desp2", "desp2"]
    );
    assert_eq!(
        snip1
            .get_body()
            .iter()
            .map(|line| line.as_str())
            .collect::<Vec<&str>>(),
        vec!["abc"]
    );
}

#[test]
fn test_multi_snip_markdown_3() {
    let text: String = doc_multi();

    let snips: Vec<Snippet> = get_snippet_segments(&text)
        .iter()
        .map(|&md_text| Snippet::from_markdown(md_text))
        .collect();

    let snip1 = &snips[2];
    assert_eq!(snip1.get_identifier().as_str(), "abc");
    assert_eq!(snip1.get_prefix().as_str(), "123");
    assert_eq!(snip1.get_scope().as_str(), "python,lua");
    assert_eq!(
        snip1
            .get_description()
            .iter()
            .map(|line| line.as_str())
            .collect::<Vec<&str>>(),
        vec!["desp3", "desp4"]
    );
    assert_eq!(
        snip1
            .get_body()
            .iter()
            .map(|line| line.as_str())
            .collect::<Vec<&str>>(),
        vec!["print(\"Hello1\")", "print(\"Hello2\")"]
    );
}
