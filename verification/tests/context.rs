use skill_extractor::{
    candidates, candidates_from_spans, classifier_input, classifier_inputs, confirmed_skills, Candidate, KeywordMatcher,
    CONTEXT_AFTER, CONTEXT_BEFORE,
};

fn matcher(kws: &[&str]) -> KeywordMatcher {
    let owned: Vec<String> = kws.iter().map(|k| k.to_string()).collect();
    KeywordMatcher::new(&owned)
}

fn cand(skill: &str, context: &str) -> Candidate {
    Candidate { skill: skill.to_string(), context: context.to_string() }
}

#[test]
fn context_window_is_twenty_words_before_and_after() {
    let mut words: Vec<String> = (0..60).map(|i| format!("w{}", i)).collect();
    words.push("Python".to_string());
    words.extend((0..30).map(|i| format!("v{}", i)));
    let text = words.join(" ");
    let want_before: Vec<String> = (40..60).map(|i| format!("w{}", i)).collect();
    let want_after: Vec<String> = (0..20).map(|i| format!("v{}", i)).collect();
    let want = format!("{} Python {}", want_before.join(" "), want_after.join(" "));
    assert_eq!(candidates(&matcher(&["python"]), &text), vec![cand("python", &want)]);
    assert_eq!(CONTEXT_BEFORE, 20);
    assert_eq!(CONTEXT_AFTER, 21);
}

#[test]
fn context_is_clipped_at_the_ends() {
    assert_eq!(
        candidates(&matcher(&["python", "w1"]), "w1 w2 python"),
        vec![cand("w1", "w1 w2 python"), cand("python", "w1 w2 python")]
    );
}

#[test]
fn context_words_are_split_on_unicode_white_space() {
    assert_eq!(
        candidates(&matcher(&["python", "sql"]), "Python  and\tSQL\u{3000}daily"),
        vec![cand("python", "Python and SQL daily"), cand("sql", "Python and SQL daily")]
    );
}

#[test]
fn no_hits_no_candidates() {
    assert_eq!(candidates(&matcher(&["python"]), "we value a can-do attitude"), vec![]);
    assert_eq!(candidates(&matcher(&["python"]), ""), vec![]);
}

#[test]
fn classifier_input_format() {
    assert_eq!(classifier_input(&cand("python", "5 years Python")), "python : 5 years Python");
    assert_eq!(classifier_input(&cand("", "")), " : ");
    assert_eq!(
        classifier_inputs(&[cand("go", "Go dev"), cand("aws", "AWS")]),
        vec!["go : Go dev".to_string(), "aws : AWS".to_string()]
    );
}

#[test]
fn confirmed_skills_are_sorted_and_distinct() {
    let cands = vec![
        cand("docker", "a"),
        cand("python", "b"),
        cand("docker", "c"),
        cand("aws", "d"),
        cand("go", "e"),
    ];
    assert_eq!(
        confirmed_skills(&cands, &[true, true, true, false, true]),
        vec!["docker".to_string(), "go".to_string(), "python".to_string()]
    );
}

#[test]
fn confirmed_skills_follow_string_order() {
    let cands = vec![cand("b", ""), cand("abc", ""), cand("ab", ""), cand("Z", ""), cand("\u{e9}", "")];
    assert_eq!(
        confirmed_skills(&cands, &[true, true, true, true, true]),
        vec![
            "Z".to_string(),
            "ab".to_string(),
            "abc".to_string(),
            "b".to_string(),
            "\u{e9}".to_string()
        ]
    );
}

#[test]
fn confirmed_skills_use_the_shorter_input() {
    let cands = vec![cand("go", ""), cand("aws", ""), cand("rust", "")];
    assert_eq!(confirmed_skills(&cands, &[false, true]), vec!["aws".to_string()]);
    assert_eq!(confirmed_skills(&cands, &[]), Vec::<String>::new());
}

#[test]
fn candidates_from_given_spans() {
    let spans = vec![("python".to_string(), 6, 12), ("k".to_string(), 50, 51)];
    assert_eq!(
        candidates_from_spans("a b c python d", &spans),
        vec![cand("python", "a b c python d"), cand("k", "a b c python d")]
    );
    let many: Vec<String> = (0..30).map(|i| format!("t{}", i)).collect();
    let text = many.join(" ");
    let last: Vec<String> = (10..30).map(|i| format!("t{}", i)).collect();
    assert_eq!(
        candidates_from_spans(&text, &vec![("x".to_string(), 10_000, 10_001)]),
        vec![cand("x", &last.join(" "))]
    );
}

#[test]
fn accepting_fewer_candidates_never_adds_skills() {
    let cands = vec![cand("go", ""), cand("aws", ""), cand("rust", "")];
    let more = confirmed_skills(&cands, &[true, true, false]);
    let fewer = confirmed_skills(&cands, &[false, true, false]);
    assert_eq!(more, vec!["aws".to_string(), "go".to_string()]);
    assert_eq!(fewer, vec!["aws".to_string()]);
    assert!(fewer.iter().all(|s| more.contains(s)));
}
