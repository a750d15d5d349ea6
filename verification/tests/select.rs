use fortuner::fortune::Fortune;
use fortuner::select::chosen_text;
use fortuner::select::pick_fortune;
use fortuner::store::Store;

fn fortune(text: &str) -> Fortune {
    Fortune { source: "fortunes".to_string(), text: text.to_string() }
}

fn three() -> Vec<Fortune> {
    vec![
        Fortune {
            source: "fortunes".to_string(),
            text: "You cannot achieve the impossible without \
                  attempting the absurd."
                .to_string(),
        },
        Fortune {
            source: "fortunes".to_string(),
            text: "Assumption is the mother of all screw-ups.".to_string(),
        },
        Fortune {
            source: "fortunes".to_string(),
            text: "Neckties strangle clear thinking.".to_string(),
        },
    ]
}

#[test]
fn test_pick_fortune() {
    // Create a slice of fortunes
    let fortunes = &[
        Fortune {
            source: "fortunes".to_string(),
            text: "You cannot achieve the impossible without \
                  attempting the absurd."
                .to_string(),
        },
        Fortune {
            source: "fortunes".to_string(),
            text: "Assumption is the mother of all screw-ups.".to_string(),
        },
        Fortune {
            source: "fortunes".to_string(),
            text: "Neckties strangle clear thinking.".to_string(),
        },
    ];

    // Pick a fortune with a seed
    assert_eq!(
        pick_fortune(fortunes, Some(1)).unwrap(),
        "Neckties strangle clear thinking.".to_string()
    );
}

#[test]
fn same_seed_picks_the_same_text() {
    let first = three();
    let second = three();
    for seed in [0u64, 1, 2, 3, 42, 1 << 40, u64::MAX] {
        let a = pick_fortune(&first, Some(seed));
        let b = pick_fortune(&second, Some(seed));
        let c = pick_fortune(&first, Some(seed));
        assert!(a.is_some());
        assert_eq!(a, b);
        assert_eq!(a, c);
    }
}

#[test]
fn seeds_reach_more_than_one_fortune() {
    let fortunes = three();
    let mut seen: Vec<String> = Vec::new();
    for seed in 0u64..64 {
        let text = pick_fortune(&fortunes, Some(seed)).unwrap();
        if !seen.contains(&text) {
            seen.push(text);
        }
    }
    assert_eq!(seen.len(), 3);
}

#[test]
fn nothing_is_picked_from_nothing() {
    assert_eq!(pick_fortune(&[], Some(1)), None);
    assert_eq!(pick_fortune(&[], Some(u64::MAX)), None);
    assert_eq!(pick_fortune(&[], None), None);
}

#[test]
fn single_fortune_is_always_picked() {
    let fortunes = vec![fortune("only")];
    assert_eq!(pick_fortune(&fortunes, Some(7)).unwrap(), "only");
    assert_eq!(pick_fortune(&fortunes, None).unwrap(), "only");
}

#[test]
fn pick_by_chance_is_one_of_the_fortunes() {
    let fortunes = three();
    for _ in 0..50 {
        let text = pick_fortune(&fortunes, None).unwrap();
        assert!(fortunes.iter().any(|f| f.text == text));
    }
}

#[test]
fn chosen_text_is_a_copy_of_the_text() {
    let f = fortune("the text");
    assert_eq!(chosen_text(Some(&f)), Some("the text".to_string()));
    assert_eq!(chosen_text(None), None);
}

#[test]
fn store_keeps_the_fortunes_in_order() {
    let store = Store::new(three());
    assert_eq!(store.len(), 3);
    assert!(!store.is_empty());
    let texts: Vec<&str> = store.all().iter().map(|f| f.text.as_str()).collect();
    assert_eq!(
        texts,
        vec![
            "You cannot achieve the impossible without attempting the absurd.",
            "Assumption is the mother of all screw-ups.",
            "Neckties strangle clear thinking.",
        ]
    );
    assert_eq!(store.pick(Some(1)).unwrap(), "Neckties strangle clear thinking.");
    assert_eq!(store.pick(Some(1)), pick_fortune(&three(), Some(1)));
}

#[test]
fn empty_store_gives_nothing() {
    let store = Store::new(Vec::new());
    assert!(store.is_empty());
    assert_eq!(store.len(), 0);
    assert_eq!(store.pick(Some(3)), None);
    assert_eq!(store.pick(None), None);
}
