use fortuner::error::FortuneError;
use fortuner::fortune::Fortune;
use fortuner::matcher::filter;
use fortuner::matcher::next_group;
use fortuner::matcher::Group;
use fortuner::pattern::Pattern;
use fortuner::store::Store;

fn fortune(source: &str, text: &str) -> Fortune {
    Fortune { source: source.to_string(), text: text.to_string() }
}

fn shape(groups: &[Group]) -> Vec<(&str, Vec<&str>)> {
    groups
        .iter()
        .map(|g| (g.source.as_str(), g.texts.iter().map(|t| t.as_str()).collect()))
        .collect()
}

fn corpus() -> Vec<Fortune> {
    vec![
        fortune("jokes", "a frog"),
        fortune("jokes", "a deer"),
        fortune("jokes", "one more frog"),
        fortune("quotes", "Frogs watch"),
        fortune("quotes", "nothing here"),
        fortune("jokes", "late frog"),
        fortune("other", "no match"),
    ]
}

#[test]
fn pattern_finds_a_match_anywhere_in_the_text() {
    let pattern = Pattern::new("frog", false).unwrap();
    assert!(pattern.is_match("a frog"));
    assert!(pattern.is_match("frog"));
    assert!(pattern.is_match("line one\nthe frogs"));
    assert!(!pattern.is_match("a Frog"));
    assert!(!pattern.is_match("fro g"));
    assert!(!pattern.is_match(""));
}

#[test]
fn pattern_is_a_regular_expression() {
    let pattern = Pattern::new("^A[.:] .*toad", false).unwrap();
    assert!(pattern.is_match("A: They get toad."));
    assert!(!pattern.is_match("Q: A: They get toad."));
    // The text of the pattern itself is no match for it.
    assert!(!pattern.is_match("^A[.:] .*toad"));
    let any = Pattern::new("", false).unwrap();
    assert!(any.is_match(""));
    assert!(any.is_match("x"));
}

#[test]
fn pattern_may_ignore_case() {
    let exact = Pattern::new("yogi berra", false).unwrap();
    let loose = Pattern::new("yogi berra", true).unwrap();
    assert!(!exact.is_match("-- Yogi Berra"));
    assert!(loose.is_match("-- Yogi Berra"));
    assert!(loose.is_match("-- YOGI BERRA"));
    assert!(exact.is_match("-- yogi berra"));
}

#[test]
fn pattern_remembers_what_it_was_compiled_from() {
    let pattern = Pattern::new("a+b", true).unwrap();
    assert_eq!(pattern.as_str(), "a+b");
    assert!(pattern.is_insensitive());
    let pattern = Pattern::new("x", false).unwrap();
    assert_eq!(pattern.as_str(), "x");
    assert!(!pattern.is_insensitive());
}

#[test]
fn text_that_is_no_pattern_is_refused() {
    for text in ["*", "(", "a{2", "[z-a]", "\\"] {
        match Pattern::new(text, false) {
            Err(FortuneError::InvalidPattern { pattern }) => assert_eq!(pattern, text),
            other => panic!("{:?}", other),
        }
    }
    let e = Pattern::new("*", true).unwrap_err();
    assert_eq!(e.message(), "Invalid --pattern \"*\"");
}

#[test]
fn outcome_of_compiling_decides_what_is_returned() {
    let refused = regex::Regex::new("(").unwrap_err();
    match Pattern::from_compiled("(", Err(refused)) {
        Err(FortuneError::InvalidPattern { pattern }) => assert_eq!(pattern, "("),
        other => panic!("{:?}", other),
    }
    let too_big = regex::Error::CompiledTooBig(10);
    let e = Pattern::from_compiled("x{9999}", Err(too_big)).unwrap_err();
    assert_eq!(e.message(), "Invalid --pattern \"x{9999}\"");
}

#[test]
fn matches_are_grouped_by_runs_of_one_source() {
    let pattern = Pattern::new("frog", true).unwrap();
    let groups = filter(&corpus(), &pattern);
    assert_eq!(
        shape(&groups),
        vec![
            ("jokes", vec!["a frog", "one more frog"]),
            ("quotes", vec!["Frogs watch"]),
            ("jokes", vec!["late frog"]),
        ]
    );
}

#[test]
fn case_decides_what_is_grouped() {
    let pattern = Pattern::new("frog", false).unwrap();
    let groups = filter(&corpus(), &pattern);
    // Without the match from the other source between them, the runs are one.
    assert_eq!(shape(&groups), vec![("jokes", vec!["a frog", "one more frog", "late frog"])]);
}

#[test]
fn every_text_in_a_group_matches() {
    let fortunes = corpus();
    for source in ["frog", "a", "e$", "^n", "o.e", "zzz", ""] {
        let pattern = Pattern::new(source, false).unwrap();
        let groups = filter(&fortunes, &pattern);
        let mut grouped: Vec<&str> = Vec::new();
        for group in &groups {
            assert!(!group.texts.is_empty());
            for text in &group.texts {
                assert!(pattern.is_match(text));
                grouped.push(text);
            }
        }
        let expected: Vec<&str> = fortunes
            .iter()
            .filter(|f| pattern.is_match(&f.text))
            .map(|f| f.text.as_str())
            .collect();
        assert_eq!(grouped, expected);
        for pair in groups.windows(2) {
            assert_ne!(pair[0].source, pair[1].source);
        }
    }
}

#[test]
fn no_match_gives_no_group() {
    let pattern = Pattern::new("unicorn", false).unwrap();
    assert!(filter(&corpus(), &pattern).is_empty());
    let any = Pattern::new(".", false).unwrap();
    assert!(filter(&[], &any).is_empty());
}

#[test]
fn pattern_that_matches_all_gives_a_group_for_each_run() {
    let any = Pattern::new("", false).unwrap();
    let groups = filter(&corpus(), &any);
    assert_eq!(
        shape(&groups),
        vec![
            ("jokes", vec!["a frog", "a deer", "one more frog"]),
            ("quotes", vec!["Frogs watch", "nothing here"]),
            ("jokes", vec!["late frog"]),
            ("other", vec!["no match"]),
        ]
    );
}

#[test]
fn groups_can_be_had_one_at_a_time() {
    let fortunes = corpus();
    let pattern = Pattern::new("(?i)frog", false).unwrap();

    let (first, next) = next_group(&fortunes, &pattern, 0).unwrap();
    assert_eq!(first.source, "jokes");
    assert_eq!(first.texts, vec!["a frog", "one more frog"]);
    assert_eq!(next, 3);

    let (second, next) = next_group(&fortunes, &pattern, next).unwrap();
    assert_eq!(second.source, "quotes");
    assert_eq!(second.texts, vec!["Frogs watch"]);
    assert_eq!(next, 5);

    let (third, next) = next_group(&fortunes, &pattern, next).unwrap();
    assert_eq!(third.source, "jokes");
    assert_eq!(third.texts, vec!["late frog"]);
    assert_eq!(next, 7);

    assert!(next_group(&fortunes, &pattern, next).is_none());
    assert!(next_group(&fortunes, &pattern, 6).is_none());
    assert!(next_group(&fortunes, &pattern, 100).is_none());
}

#[test]
fn groups_one_at_a_time_are_the_groups_of_filter() {
    let fortunes = corpus();
    for source in ["frog", "a", "o", "", "x"] {
        let pattern = Pattern::new(source, true).unwrap();
        let all = filter(&fortunes, &pattern);
        let mut start = 0;
        let mut count = 0;
        while let Some((group, next)) = next_group(&fortunes, &pattern, start) {
            assert!(next > start);
            assert_eq!(group.source, all[count].source);
            assert_eq!(group.texts, all[count].texts);
            start = next;
            count += 1;
        }
        assert_eq!(count, all.len());
    }
}

#[test]
fn store_filters_as_the_function_does() {
    let pattern = Pattern::new("frog", true).unwrap();
    let store = Store::new(corpus());
    assert_eq!(shape(&store.filter(&pattern)), shape(&filter(&corpus(), &pattern)));
    assert_eq!(store.filter(&pattern).len(), 3);
}
