use skill_extractor::{is_word_char, KeywordMatcher};

fn spans(v: &[(&str, usize, usize)]) -> Vec<(String, usize, usize)> {
    v.iter().map(|(k, s, e)| (k.to_string(), *s, *e)).collect()
}

fn matcher(kws: &[&str]) -> KeywordMatcher {
    let owned: Vec<String> = kws.iter().map(|k| k.to_string()).collect();
    KeywordMatcher::new(&owned)
}

/// Shared cases: texts with the spans that the FlashText algorithm reports
/// for them over a small gazetteer.
fn parity_cases() -> Vec<(&'static str, Vec<(String, usize, usize)>)> {
    vec![
        (
            "5+ years Python, Docker required",
            spans(&[("python", 9, 15), ("docker", 17, 23)]),
        ),
        (
            "We use C++, .NET (C#) and C.",
            spans(&[("c++", 7, 10), (".net (c#)", 12, 21), ("c", 26, 27)]),
        ),
        ("we value a can-do attitude and drive impact", spans(&[])),
        (
            "5+ years Python, REST APIs with FastAPI",
            spans(&[("python", 9, 15), ("rest apis", 17, 26), ("fastapi", 32, 39)]),
        ),
        ("golang, go-to, Go.", spans(&[("go", 8, 10), ("go", 15, 17)])),
    ]
}

#[test]
fn matcher_parity() {
    let m = matcher(&[
        "python", "docker", "c++", "c", ".net", ".net (c#)", "c#", "rest apis", "fastapi", "go",
    ]);
    let cases = parity_cases();
    let mut count = 0;
    for (text, want) in &cases {
        let got = m.extract(text);
        assert_eq!(&got, want, "mismatch on {:?}", &text[..text.len().min(80)]);
        count += got.len();
    }
    println!("matcher parity ok: {} cases, {} spans", cases.len(), count);
}

#[test]
fn readme_posting_spans() {
    let m = matcher(&[
        "python", "rest apis", "fastapi", "go", "aws", "docker", "kubernetes", "ecs", "lambda",
        "postgresql",
    ]);
    let text = "Senior Backend Engineer. 5+ years Python or Go, REST APIs with FastAPI, PostgreSQL, AWS (ECS, Lambda). Docker and Kubernetes required.";
    assert_eq!(
        m.extract(text),
        spans(&[
            ("python", 34, 40),
            ("go", 44, 46),
            ("rest apis", 48, 57),
            ("fastapi", 63, 70),
            ("postgresql", 72, 82),
            ("aws", 84, 87),
            ("ecs", 89, 92),
            ("lambda", 94, 100),
            ("docker", 103, 109),
            ("kubernetes", 114, 124),
        ])
    );
}

#[test]
fn punctuation_in_keywords() {
    let m = matcher(&["c++", "c", ".net", ".net (c#)", "c#"]);
    assert_eq!(
        m.extract("We use C++, .NET (C#) and C."),
        spans(&[("c++", 7, 10), (".net (c#)", 12, 21), ("c", 26, 27)])
    );
}

#[test]
fn matching_ignores_case() {
    let m = matcher(&["Python"]);
    assert_eq!(m.extract("PYTHON and python"), spans(&[("python", 0, 6), ("python", 11, 17)]));
}

#[test]
fn only_whole_words_match() {
    let m = matcher(&["go"]);
    assert_eq!(m.extract("going to go, golang go"), spans(&[("go", 9, 11), ("go", 20, 22)]));
}

#[test]
fn longest_match_wins() {
    let m = matcher(&["machine", "machine learning"]);
    assert_eq!(
        m.extract("machine learning and machine vision"),
        spans(&[("machine learning", 0, 16), ("machine", 21, 28)])
    );
    let m = matcher(&["java", "javascript"]);
    assert_eq!(
        m.extract("javascript, java-script, java"),
        spans(&[("javascript", 0, 10), ("java", 12, 16), ("java", 25, 29)])
    );
}

#[test]
fn keyword_inside_longer_word_is_not_reported() {
    let m = matcher(&["data science", "science"]);
    assert_eq!(m.extract("data scientist science"), spans(&[("science", 15, 22)]));
}

#[test]
fn leading_punctuation_keyword() {
    let m = matcher(&["net", ".net"]);
    assert_eq!(m.extract("foo .net net"), spans(&[(".net", 4, 8), ("net", 9, 12)]));
}

#[test]
fn sentence_equal_to_keyword_spans_whole() {
    let m = matcher(&["rest apis"]);
    assert_eq!(m.extract("REST APIs"), spans(&[("rest apis", 0, 9)]));
}

#[test]
fn empty_sentence_has_no_spans() {
    let m = matcher(&["python"]);
    assert_eq!(m.extract(""), spans(&[]));
}

#[test]
fn no_keywords_no_spans() {
    let m = KeywordMatcher::default();
    assert_eq!(m.extract("python docker"), spans(&[]));
}

#[test]
fn added_keyword_is_found() {
    let mut m = KeywordMatcher::default();
    m.add("Rust");
    assert_eq!(m.extract("I write Rust."), spans(&[("rust", 8, 12)]));
}

#[test]
fn empty_keyword_is_ignored() {
    let m = matcher(&[""]);
    assert_eq!(m.extract("a"), spans(&[]));
    let mut m = matcher(&["go"]);
    m.add("");
    m.add_lowercased(String::new());
    assert_eq!(m.extract("a go"), spans(&[("go", 2, 4)]));
}

#[test]
fn non_ascii_is_lowercased() {
    let m = matcher(&["\u{c4}rger"]);
    assert_eq!(m.extract("kein \u{c4}RGER hier"), spans(&[("\u{e4}rger", 5, 10)]));
}

#[test]
fn word_characters() {
    assert!(is_word_char('a'));
    assert!(is_word_char('Z'));
    assert!(is_word_char('7'));
    assert!(is_word_char('_'));
    assert!(!is_word_char('-'));
    assert!(!is_word_char(' '));
    assert!(!is_word_char('+'));
    assert!(!is_word_char('\u{e9}'));
}

#[test]
fn order_of_adding_keywords_does_not_matter() {
    let mut a = KeywordMatcher::default();
    a.add("Go");
    a.add("golang");
    a.add("go to market");
    let mut b = KeywordMatcher::default();
    b.add("go to market");
    b.add("golang");
    b.add("Go");
    let text = "Go, golang and a go to market plan; go";
    assert_eq!(a.extract(text), b.extract(text));
    assert_eq!(
        a.extract(text),
        spans(&[("go", 0, 2), ("golang", 4, 10), ("go to market", 17, 29), ("go", 36, 38)])
    );
}

#[test]
fn extract_lowercased_takes_text_as_is() {
    let m = matcher(&["rust"]);
    assert_eq!(m.extract_lowercased("Rust rust"), spans(&[("rust", 5, 9)]));
    assert_eq!(m.extract("Rust rust"), spans(&[("rust", 0, 4), ("rust", 5, 9)]));
}

#[test]
fn add_lowercased_keeps_case() {
    let mut m = KeywordMatcher::default();
    m.add_lowercased("Go".to_string());
    assert_eq!(m.extract("Go"), spans(&[]));
    assert_eq!(m.extract_lowercased("Go"), spans(&[("Go", 0, 2)]));
}
