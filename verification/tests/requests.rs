use anaphor::json::JsonValue;
use anaphor::llm::{
    answer_request, bearer_header, parse_tool_requests, planner_request, tool_definitions,
    OpenRouterFunctionCall, OpenRouterToolCall, ANSWERER_SYSTEM_PROMPT, PLANNER_SYSTEM_PROMPT,
};
use anaphor::types::ToolRequest;

fn get<'a>(v: &'a JsonValue, key: &str) -> &'a JsonValue {
    v.get(key).unwrap()
}

fn text(v: &JsonValue) -> &str {
    v.as_str().unwrap()
}

fn keys(v: &JsonValue) -> Vec<&str> {
    match v {
        JsonValue::Object(members) => members.iter().map(|(k, _)| k.as_str()).collect(),
        _ => panic!("not an object"),
    }
}

#[test]
fn tool_definitions_offer_the_three_tools() {
    let defs = tool_definitions();
    let items = defs.as_array().unwrap();
    assert_eq!(items.len(), 3);
    let expected = [("search_web", "query"), ("read_url", "url"), ("read_file", "path")];
    for (item, (name, param)) in items.iter().zip(expected.iter()) {
        assert_eq!(keys(item), vec!["type", "function"]);
        assert_eq!(text(get(item, "type")), "function");
        let f = get(item, "function");
        assert_eq!(text(get(f, "name")), *name);
        let p = get(f, "parameters");
        assert_eq!(text(get(p, "type")), "object");
        assert_eq!(keys(get(p, "properties")), vec![*param]);
        assert_eq!(text(get(get(get(p, "properties"), param), "type")), "string");
        let required = get(p, "required").as_array().unwrap();
        assert_eq!(required.len(), 1);
        assert_eq!(text(&required[0]), *param);
        assert!(matches!(get(p, "additionalProperties"), JsonValue::Bool(false)));
    }
    assert_eq!(
        text(get(get(&items[0], "function"), "description")),
        "Search the web when the user asks to find links, look up current information, or discover pages about a topic. Do not use this when the user names a specific URL or domain."
    );
}

#[test]
fn offered_tools_parse_back_into_requests() {
    let defs = tool_definitions();
    let calls: Vec<OpenRouterToolCall> = defs
        .as_array()
        .unwrap()
        .iter()
        .map(|item| {
            let f = get(item, "function");
            let param = keys(get(get(f, "parameters"), "properties"))[0];
            OpenRouterToolCall {
                function: OpenRouterFunctionCall {
                    name: text(get(f, "name")).to_string(),
                    arguments: format!("{{\"{}\": \"Example.com\"}}", param),
                },
            }
        })
        .collect();
    assert_eq!(
        parse_tool_requests(Some(&calls)),
        vec![
            ToolRequest::SearchWeb { query: "Example.com".to_string() },
            ToolRequest::ReadUrl { url: "https://Example.com".to_string() },
            ToolRequest::ReadFile { path: "example.com".to_string() },
        ]
    );
}

#[test]
fn builds_planner_and_answer_requests() {
    let body = planner_request("m1", "what is rust?");
    assert_eq!(keys(&body), vec!["model", "messages", "tools", "tool_choice"]);
    assert_eq!(text(get(&body, "model")), "m1");
    assert_eq!(text(get(&body, "tool_choice")), "auto");
    let messages = get(&body, "messages").as_array().unwrap();
    assert_eq!(messages.len(), 2);
    assert_eq!(text(get(&messages[0], "role")), "system");
    assert_eq!(text(get(&messages[0], "content")), PLANNER_SYSTEM_PROMPT);
    assert_eq!(text(get(&messages[1], "role")), "user");
    assert_eq!(text(get(&messages[1], "content")), "what is rust?");
    assert_eq!(get(&body, "tools").as_array().unwrap().len(), 3);

    let answer = answer_request("m2", "Question:\nq");
    assert_eq!(keys(&answer), vec!["model", "messages"]);
    let messages = get(&answer, "messages").as_array().unwrap();
    assert_eq!(text(get(&messages[0], "content")), ANSWERER_SYSTEM_PROMPT);
    assert_eq!(text(get(&messages[1], "content")), "Question:\nq");
}

#[test]
fn builds_bearer_header() {
    assert_eq!(bearer_header("sk-1"), "Bearer sk-1");
}
