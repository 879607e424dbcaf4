use anaphor::budget::{gather_context, ContextBudget, ToolOutcome};
use anaphor::types::{ContextBlock, SearchResult};

#[test]
fn context_budget_applies_to_total_context_and_dedupes() {
    let mut budget = ContextBudget::new(8);
    let mut contexts = Vec::new();

    budget.push(
        &mut contexts,
        "same".to_string(),
        "first".to_string(),
        "abcdef".to_string(),
        None,
    );
    budget.push(
        &mut contexts,
        "same".to_string(),
        "duplicate".to_string(),
        "ignored".to_string(),
        None,
    );
    budget.push(
        &mut contexts,
        "other".to_string(),
        "second".to_string(),
        "uvwxyz".to_string(),
        None,
    );

    assert_eq!(contexts.len(), 2);
    assert_eq!(contexts[0].text, "abcdef");
    assert_eq!(contexts[1].text, "..");
    assert_eq!(
        contexts
            .iter()
            .map(|ctx| ctx.text.chars().count())
            .sum::<usize>(),
        8
    );
}

#[test]
fn exhausted_budget_accepts_nothing() {
    let mut budget = ContextBudget::new(3);
    let mut contexts = Vec::new();
    budget.push(&mut contexts, "a".to_string(), "a".to_string(), "abc".to_string(), None);
    budget.push(&mut contexts, "b".to_string(), "b".to_string(), "x".to_string(), None);
    assert_eq!(contexts.len(), 1);
    assert_eq!(contexts[0].text, "abc");
}

#[test]
fn gather_context_sanitizes_file_errors() {
    let contexts = gather_context(
        vec![ToolOutcome::ReadFile {
            path: "../../etc/passwd".to_string(),
            contents: None,
        }],
        Vec::new(),
        30000,
    );

    assert_eq!(contexts.len(), 1);
    assert_eq!(contexts[0].label, "tool errors");
    assert_eq!(contexts[0].text, "read_file failed; details omitted");
    assert!(!contexts[0].text.contains("../../etc/passwd"));
}

#[test]
fn gather_context_orders_dedupes_and_budgets() {
    let existing = vec![ContextBlock {
        label: "stdin".to_string(),
        text: "notes".to_string(),
        url: None,
    }];
    let outcomes = vec![
        ToolOutcome::SearchWeb {
            query: "q".to_string(),
            results: Some(vec![
                SearchResult {
                    title: "A".to_string(),
                    url: "https://a/".to_string(),
                    snippet: "sa".to_string(),
                },
                SearchResult {
                    title: "B".to_string(),
                    url: "https://b/".to_string(),
                    snippet: "sb".to_string(),
                },
            ]),
        },
        ToolOutcome::ReadUrl { url: "https://a/".to_string(), page: Some("page".to_string()) },
        ToolOutcome::ReadUrl { url: "https://c/".to_string(), page: None },
        ToolOutcome::ReadFile { path: "README.md".to_string(), contents: Some("readme".to_string()) },
        ToolOutcome::SearchWeb { query: "z".to_string(), results: None },
    ];
    let contexts = gather_context(outcomes, existing, 1000);
    let labels: Vec<&str> = contexts.iter().map(|c| c.label.as_str()).collect();
    assert_eq!(
        labels,
        vec![
            "stdin",
            "search result 1",
            "search result 2",
            "tool errors",
            "file README.md",
            "tool errors"
        ]
    );
    assert_eq!(contexts[1].text, "title: A\nurl: https://a/\nsa");
    assert_eq!(contexts[1].url.as_deref(), Some("https://a/"));
    assert_eq!(contexts[3].text, "read_url failed; details omitted");
    assert_eq!(contexts[4].text, "readme");
    assert_eq!(contexts[5].text, "search_web failed; details omitted");

    let small = gather_context(
        vec![ToolOutcome::ReadFile { path: "f".to_string(), contents: Some("0123456789".to_string()) }],
        vec![ContextBlock { label: "stdin".to_string(), text: "abcd".to_string(), url: None }],
        8,
    );
    assert_eq!(small.len(), 2);
    assert_eq!(small[1].text, "0...");
    let total: usize = small.iter().map(|c| c.text.chars().count()).sum();
    assert!(total <= 8);
}

#[test]
fn pushes_keep_the_budget_accounted() {
    let mut budget = ContextBudget::new(10);
    let mut contexts = Vec::new();
    let inputs = [("a", "12345"), ("b", "123"), ("a", "zz"), ("c", "1234"), ("d", "x")];
    for (key, text) in inputs {
        let before = contexts.len();
        budget.push(&mut contexts, key.to_string(), key.to_string(), text.to_string(), None);
        assert!(contexts.len() == before || contexts.len() == before + 1);
        let total: usize = contexts.iter().map(|c: &ContextBlock| c.text.chars().count()).sum();
        assert!(total <= 10);
    }
    let labels: Vec<&str> = contexts.iter().map(|c| c.label.as_str()).collect();
    assert_eq!(labels, vec!["a", "b", "c"]);
    assert_eq!(contexts[2].text, "..");
}
