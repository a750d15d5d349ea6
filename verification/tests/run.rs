use fortuner::config::configure;
use fortuner::config::get_args;
use fortuner::config::Config;
use fortuner::error::FortuneError;
use fortuner::fortune::Fortune;
use fortuner::matcher::Group;
use fortuner::pattern::Pattern;
use fortuner::run::render_groups;
use fortuner::run::render_pick;
use fortuner::run::run;
use fortuner::run::Emit;

fn fortune(source: &str, text: &str) -> Fortune {
    Fortune { source: source.to_string(), text: text.to_string() }
}

fn printed(emits: &[Emit]) -> Vec<(bool, &str)> {
    emits
        .iter()
        .map(|emit| match emit {
            Emit::Stdout(text) => (true, text.as_str()),
            Emit::Stderr(text) => (false, text.as_str()),
        })
        .collect()
}

fn strings(texts: &[&str]) -> Vec<String> {
    texts.iter().map(|t| t.to_string()).collect()
}

#[test]
fn arguments_without_pattern_or_seed() {
    let config = get_args(strings(&["a", "b"]), None, false, None).unwrap();
    assert_eq!(config.sources, vec!["a", "b"]);
    assert!(config.pattern.is_none());
    assert_eq!(config.seed, None);
}

#[test]
fn arguments_with_pattern_and_seed() {
    let config =
        get_args(strings(&["dir"]), Some("Yogi".to_string()), true, Some("10".to_string()))
            .unwrap();
    assert_eq!(config.sources, vec!["dir"]);
    assert_eq!(config.seed, Some(10));
    let pattern = config.pattern.unwrap();
    assert_eq!(pattern.as_str(), "Yogi");
    assert!(pattern.is_insensitive());
    assert!(pattern.is_match("yogi"));
}

#[test]
fn case_flag_without_a_pattern_changes_nothing() {
    let config = get_args(strings(&["dir"]), None, true, Some("3".to_string())).unwrap();
    assert!(config.pattern.is_none());
    assert_eq!(config.seed, Some(3));
}

#[test]
fn bad_seed_is_reported() {
    let e = get_args(strings(&["dir"]), None, false, Some("a".to_string())).unwrap_err();
    assert_eq!(e.message(), "\"a\" not a valid integer");
    assert!(matches!(e, FortuneError::InvalidSeed { .. }));
}

#[test]
fn bad_pattern_is_reported_before_a_bad_seed() {
    let e = get_args(strings(&["dir"]), Some("*".to_string()), false, Some("a".to_string()))
        .unwrap_err();
    assert_eq!(e.message(), "Invalid --pattern \"*\"");
    let e = get_args(strings(&["dir"]), Some("ok".to_string()), false, Some("a".to_string()))
        .unwrap_err();
    assert_eq!(e.message(), "\"a\" not a valid integer");
}

#[test]
fn configuration_follows_the_outcome_of_compiling() {
    let refused = Pattern::new("(", false);
    let e = configure(strings(&["s"]), Some(refused), Some("1".to_string())).unwrap_err();
    assert_eq!(e.message(), "Invalid --pattern \"(\"");

    let compiled = Pattern::new("x", false);
    let config = configure(strings(&["s"]), Some(compiled), Some("+8".to_string())).unwrap();
    assert_eq!(config.seed, Some(8));
    assert_eq!(config.pattern.unwrap().as_str(), "x");

    let config = configure(strings(&["s", "t"]), None, None).unwrap();
    assert_eq!(config.sources, vec!["s", "t"]);
    assert!(config.pattern.is_none() && config.seed.is_none());

    let e = configure(strings(&["s"]), None, Some("".to_string())).unwrap_err();
    assert_eq!(e.message(), "\"\" not a valid integer");
}

#[test]
fn groups_are_laid_out_with_headers_and_delimiters() {
    let groups = vec![
        Group { source: "jokes".to_string(), texts: strings(&["one", "two\nlines"]) },
        Group { source: "quotes".to_string(), texts: strings(&["three"]) },
    ];
    let emits = render_groups(&groups);
    assert_eq!(
        printed(&emits),
        vec![
            (false, "(jokes)\n%"),
            (true, "one\n%"),
            (true, "two\nlines\n%"),
            (false, "(quotes)\n%"),
            (true, "three\n%"),
        ]
    );
    assert!(render_groups(&Vec::new()).is_empty());
}

#[test]
fn pick_is_laid_out_as_one_text() {
    assert_eq!(printed(&render_pick(Some("a fortune".to_string()))), vec![(true, "a fortune")]);
    assert_eq!(printed(&render_pick(None)), vec![(true, "No fortunes found")]);
}

#[test]
fn run_with_a_pattern_prints_the_groups() {
    let fortunes = vec![
        fortune("jokes", "a frog"),
        fortune("quotes", "Frog!"),
        fortune("quotes", "none"),
        fortune("quotes", "frogs"),
    ];
    let config = Config {
        sources: strings(&["dir"]),
        pattern: Some(Pattern::new("frog", true).unwrap()),
        seed: Some(1),
    };
    assert_eq!(
        printed(&run(&config, &fortunes)),
        vec![
            (false, "(jokes)\n%"),
            (true, "a frog\n%"),
            (false, "(quotes)\n%"),
            (true, "Frog!\n%"),
            (true, "frogs\n%"),
        ]
    );
    let config = Config {
        sources: strings(&["dir"]),
        pattern: Some(Pattern::new("unicorn", false).unwrap()),
        seed: None,
    };
    assert!(run(&config, &fortunes).is_empty());
}

#[test]
fn run_without_a_pattern_prints_a_pick() {
    let fortunes = vec![
        fortune(
            "fortunes",
            "You cannot achieve the impossible without attempting the absurd.",
        ),
        fortune("fortunes", "Assumption is the mother of all screw-ups."),
        fortune("fortunes", "Neckties strangle clear thinking."),
    ];
    let config = Config { sources: strings(&["dir"]), pattern: None, seed: Some(1) };
    assert_eq!(
        printed(&run(&config, &fortunes)),
        vec![(true, "Neckties strangle clear thinking.")]
    );
    let config = Config { sources: strings(&["dir"]), pattern: None, seed: None };
    let emits = run(&config, &fortunes);
    assert_eq!(emits.len(), 1);
    match &emits[0] {
        Emit::Stdout(text) => assert!(fortunes.iter().any(|f| &f.text == text)),
        other => panic!("{:?}", other),
    }
}

#[test]
fn run_on_nothing_says_so() {
    for seed in [None, Some(0), Some(99)] {
        let config = Config { sources: strings(&["dir"]), pattern: None, seed };
        assert_eq!(printed(&run(&config, &[])), vec![(true, "No fortunes found")]);
    }
}

#[test]
fn each_error_has_its_message() {
    let e = FortuneError::NotFound { path: "p".to_string(), cause: "c".to_string() };
    assert_eq!(e.message(), "p: c");
    let e = FortuneError::ReadFailure { path: "q".to_string(), cause: "d".to_string() };
    assert_eq!(e.message(), "q: d");
    let e = FortuneError::InvalidPattern { pattern: "[".to_string() };
    assert_eq!(e.message(), "Invalid --pattern \"[\"");
    let e = FortuneError::InvalidSeed { value: "1x".to_string() };
    assert_eq!(e.message(), "\"1x\" not a valid integer");
}
