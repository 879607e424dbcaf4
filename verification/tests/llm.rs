use anaphor::llm::{parse_tool_requests, tool_request_from_args, OpenRouterFunctionCall, OpenRouterToolCall};
use anaphor::json::JsonValue;
use anaphor::types::ToolRequest;
use anaphor::llm::{answer_text, first_message, ChatChoice, ChatMessage, ChatResponse, LlmError};

#[test]
fn parses_tool_requests() {
    let tool_calls = vec![
        OpenRouterToolCall {
            function: OpenRouterFunctionCall {
                name: "read_file".to_string(),
                arguments: r#"{"path":"readme"}"#.to_string(),
            },
        },
        OpenRouterToolCall {
            function: OpenRouterFunctionCall {
                name: "read_url".to_string(),
                arguments: r#"{"url":"rust-lang.org"}"#.to_string(),
            },
        },
        OpenRouterToolCall {
            function: OpenRouterFunctionCall {
                name: "search_web".to_string(),
                arguments: r#"{"query":"axum web framework"}"#.to_string(),
            },
        },
    ];

    assert_eq!(
        parse_tool_requests(Some(&tool_calls)),
        vec![
            ToolRequest::ReadFile {
                path: "README.md".to_string()
            },
            ToolRequest::ReadUrl {
                url: "https://rust-lang.org".to_string()
            },
            ToolRequest::SearchWeb {
                query: "axum web framework".to_string()
            },
        ]
    );
}

#[test]
fn skips_unknown_or_invalid_tool_requests() {
    let tool_calls = vec![
        OpenRouterToolCall {
            function: OpenRouterFunctionCall {
                name: "read_file".to_string(),
                arguments: "not json".to_string(),
            },
        },
        OpenRouterToolCall {
            function: OpenRouterFunctionCall {
                name: "unknown".to_string(),
                arguments: r#"{"query":"ignored"}"#.to_string(),
            },
        },
    ];

    assert!(parse_tool_requests(Some(&tool_calls)).is_empty());
    assert!(parse_tool_requests(None).is_empty());
}

#[test]
fn tool_arguments_must_be_strings() {
    let args = JsonValue::Object(vec![("query".to_string(), JsonValue::Number("3".to_string()))]);
    assert_eq!(tool_request_from_args("search_web", &args), None);
    let args = JsonValue::Object(vec![("path".to_string(), JsonValue::Text(" Cargo.TOML ".to_string()))]);
    assert_eq!(
        tool_request_from_args("read_file", &args),
        Some(ToolRequest::ReadFile { path: "Cargo.toml".to_string() })
    );
    assert_eq!(tool_request_from_args("read_url", &JsonValue::Null), None);
    let calls = vec![OpenRouterToolCall {
        function: OpenRouterFunctionCall {
            name: "search_web".to_string(),
            arguments: r#"{"query": 42}"#.to_string(),
        },
    }];
    assert!(parse_tool_requests(Some(&calls)).is_empty());
}


#[test]
fn first_choice_answers() {
    let empty = ChatResponse { choices: vec![] };
    let err = first_message(empty).err().unwrap();
    assert_eq!(err, LlmError::NoChoices);
    assert_eq!(err.message(), "LLM response did not include any choices");

    let response = ChatResponse {
        choices: vec![
            ChatChoice { message: ChatMessage { content: Some("one".to_string()), tool_calls: None } },
            ChatChoice { message: ChatMessage { content: Some("two".to_string()), tool_calls: None } },
        ],
    };
    let message = first_message(response).ok().unwrap();
    assert_eq!(answer_text(message).unwrap(), "one");

    let silent = ChatMessage { content: None, tool_calls: Some(vec![]) };
    let err = answer_text(silent).unwrap_err();
    assert_eq!(err, LlmError::NoTextContent);
    assert_eq!(err.message(), "LLM response did not include text content");
}
