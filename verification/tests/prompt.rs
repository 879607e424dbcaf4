use anaphor::prompt::{build_prompt, resolve_question, stdin_context, QuestionError};
use anaphor::types::ContextBlock;
use anaphor::prompt::stdin_byte_limit;

#[test]
fn builds_prompt_with_context_url() {
    let prompt = build_prompt(
        "What changed?",
        &[ContextBlock {
            label: "url https://example.com".to_string(),
            text: "Page body".to_string(),
            url: Some("https://example.com".to_string()),
        }],
    );

    assert!(prompt.contains("[source: url https://example.com]"));
    assert!(prompt.contains("url: https://example.com"));
    assert!(prompt.contains("Page body"));
    assert!(prompt.ends_with("Question:\nWhat changed?"));
}

#[test]
fn builds_prompt_exactly() {
    assert_eq!(build_prompt("Q?", &[]), "Question:\nQ?");
    let prompt = build_prompt(
        "Q?",
        &[
            ContextBlock { label: "stdin".to_string(), text: "notes".to_string(), url: None },
            ContextBlock {
                label: "search result 1".to_string(),
                text: "t".to_string(),
                url: Some("https://a.b/".to_string()),
            },
        ],
    );
    assert_eq!(
        prompt,
        "Context:\n---\n[source: stdin]\nnotes\n\n[source: search result 1]\nurl: https://a.b/\nt\n\n---\n\nQuestion:\nQ?"
    );
}

#[test]
fn resolves_question() {
    assert_eq!(resolve_question(Some("why?".to_string()), false).unwrap(), "why?");
    assert_eq!(
        resolve_question(Some(" \n".to_string()), true).unwrap_err(),
        QuestionError::EmptyQuestion
    );
    assert_eq!(
        resolve_question(None, true).unwrap(),
        "Summarize the provided context."
    );
    let err = resolve_question(None, false).unwrap_err();
    assert_eq!(err, QuestionError::NothingToAnswer);
    assert_eq!(
        err.message(),
        "No question or context provided. Use 'anaphor --help' for usage."
    );
    assert_eq!(
        QuestionError::EmptyQuestion.message(),
        "No question provided. Use 'anaphor --help' for usage."
    );
}

#[test]
fn stdin_becomes_a_truncated_block() {
    assert!(stdin_context("  \n", 10).is_none());
    let block = stdin_context("abcdefgh", 6).unwrap();
    assert_eq!(block.label, "stdin");
    assert_eq!(block.text, "abc...");
    assert_eq!(block.url, None);
}


#[test]
fn stdin_limit_saturates() {
    assert_eq!(stdin_byte_limit(0), 1);
    assert_eq!(stdin_byte_limit(30000), 120001);
    assert_eq!(stdin_byte_limit(usize::MAX), usize::MAX as u64);
    assert_eq!(stdin_byte_limit(usize::MAX / 4), (usize::MAX / 4 * 4 + 1) as u64);
}
