use devpilot::entities::metadata::language_stats;
use devpilot::entities::Language;
use devpilot::order::{compare_str, sort_by_key, Comparison};

#[test]
fn sort_orders_many_strings_by_code_point() {
    let words = vec![
        "pear", "apple", "Zebra", "fig", "banana", "apple", "cherry", "kiwi", "date", "", "a",
        "Apple", "grape", "lime", "b", "melon", "nut", "olive",
    ];
    let input: Vec<String> = words.iter().map(|w| w.to_string()).collect();
    let mut expected = input.clone();
    expected.sort();
    assert_eq!(sort_by_key(input), expected);
}

#[test]
fn sort_keeps_short_inputs() {
    assert_eq!(sort_by_key(Vec::<String>::new()), Vec::<String>::new());
    assert_eq!(sort_by_key(vec!["x".to_string()]), vec!["x".to_string()]);
    assert_eq!(
        sort_by_key(vec!["b".to_string(), "a".to_string()]),
        vec!["a".to_string(), "b".to_string()]
    );
}

#[test]
fn language_stats_rank_by_count_then_name() {
    let counts = vec![
        (Language::Rust, 2),
        (Language::TypeScript, 5),
        (Language::JavaScript, 2),
        (Language::Python, 0),
        (Language::Go, 5),
        (Language::Unknown, 1),
    ];
    let stats = language_stats(&counts);
    let ranked: Vec<(Language, usize)> =
        stats.iter().map(|s| (s.language, s.file_count)).collect();
    assert_eq!(
        ranked,
        vec![
            (Language::Go, 5),
            (Language::TypeScript, 5),
            (Language::JavaScript, 2),
            (Language::Rust, 2),
            (Language::Unknown, 1),
            (Language::Python, 0),
        ]
    );
}

#[test]
fn compares_strings_by_code_point() {
    assert_eq!(compare_str("abc", "abd"), Comparison::Less);
    assert_eq!(compare_str("abc", "abc"), Comparison::Equal);
    assert_eq!(compare_str("b", "abc"), Comparison::Greater);
    assert_eq!(compare_str("Z", "a"), Comparison::Less);
    assert_eq!(compare_str("", "a"), Comparison::Less);
}
