//! Reading the planner's tool calls into tool requests.
use vstd::prelude::*;

use crate::json::{
    json_array, json_get, json_get_opt, json_str, lemma_lookup_at, member, member_keys, parse_json,
    parsed_json, str_eq, text_value, JsonValue,
};
use crate::text::trim;
use crate::tools::{canonical_file_name, lowercase, normalize_file_path, normalize_url, normalized_url};
use crate::types::{RequestView, ToolRequest};

verus! {

/// The function a tool call names, with its JSON-encoded arguments.
pub struct OpenRouterFunctionCall {
    pub name: String,
    pub arguments: String,
}

/// One tool call of the planner's reply.
pub struct OpenRouterToolCall {
    pub function: OpenRouterFunctionCall,
}

/// The request that a call of `name` with the decoded arguments `args`
/// stands for: `search_web` takes its `query` as it is, `read_url` its
/// `url` normalised, `read_file` its `path` normalised; an unknown tool,
/// arguments that are not JSON, or a missing or non-string argument give
/// none.
pub open spec fn request_for(name: Seq<char>, args: Option<JsonValue>) -> Option<RequestView> {
    match args {
        None => None,
        Some(a) => if name == "search_web"@ {
            match json_str(json_get(a, "query"@)) {
                Some(q) => Some(RequestView::SearchWeb(q)),
                None => None,
            }
        } else if name == "read_url"@ {
            match json_str(json_get(a, "url"@)) {
                Some(u) => Some(RequestView::ReadUrl(normalized_url(u))),
                None => None,
            }
        } else if name == "read_file"@ {
            match json_str(json_get(a, "path"@)) {
                Some(p) => Some(RequestView::ReadFile(canonical_file_name(lowercase(trim(p))))),
                None => None,
            }
        } else {
            None
        },
    }
}

/// The requests that the calls `calls` stand for, in order, calls that
/// stand for none left out.
pub open spec fn requests_for(calls: Seq<OpenRouterToolCall>) -> Seq<RequestView>
    decreases calls.len(),
{
    if calls.len() == 0 {
        Seq::empty()
    } else {
        let c = calls.last();
        match request_for(c.function.name@, parsed_json(c.function.arguments@)) {
            Some(r) => requests_for(calls.drop_last()).push(r),
            None => requests_for(calls.drop_last()),
        }
    }
}

/// A single call stands for the request it names, or for none.
pub proof fn lemma_requests_for_one(c: OpenRouterToolCall)
    ensures
        requests_for(seq![c]) == match request_for(
            c.function.name@,
            parsed_json(c.function.arguments@),
        ) {
            Some(r) => seq![r],
            None => Seq::<RequestView>::empty(),
        },
{
    assert(seq![c].drop_last() == Seq::<OpenRouterToolCall>::empty());
    assert(seq![c].last() == c);
    assert(requests_for(Seq::<OpenRouterToolCall>::empty()) == Seq::<RequestView>::empty());
    match request_for(c.function.name@, parsed_json(c.function.arguments@)) {
        Some(r) => {
            assert(Seq::<RequestView>::empty().push(r) == seq![r]);
        },
        None => {},
    }
}

/// Calls are read independently: the requests of two runs of calls, one
/// after the other, are the requests of the first run followed by those
/// of the second, so a call that stands for no request never removes the
/// requests of the calls around it.
pub proof fn lemma_requests_for_concat(a: Seq<OpenRouterToolCall>, b: Seq<OpenRouterToolCall>)
    ensures
        requests_for(a + b) == requests_for(a) + requests_for(b),
    decreases b.len(),
{
    if b.len() == 0 {
        assert(a + b == a);
        assert(requests_for(a) + Seq::<RequestView>::empty() == requests_for(a));
    } else {
        lemma_requests_for_concat(a, b.drop_last());
        assert((a + b).drop_last() == a + b.drop_last());
        assert((a + b).last() == b.last());
        let c = b.last();
        match request_for(c.function.name@, parsed_json(c.function.arguments@)) {
            Some(r) => {
                assert(requests_for(a) + requests_for(b.drop_last()).push(r) == (requests_for(a)
                    + requests_for(b.drop_last())).push(r));
            },
            None => {},
        }
    }
}

/// The requests as views.
pub open spec fn requests_view(v: Seq<ToolRequest>) -> Seq<RequestView> {
    v.map_values(|r: ToolRequest| r@)
}

fn string_arg(args: &JsonValue, key: &str) -> (r: Option<String>)
    ensures
        match r {
            Some(s) => json_str(json_get(*args, key@)) == Some(s@),
            None => json_str(json_get(*args, key@)) is None,
        },
{
    match args.get(key) {
        Some(v) => match v.as_str() {
            Some(s) => Some(s.to_owned()),
            None => None,
        },
        None => None,
    }
}

/// The request that a call of the tool `name` with the decoded arguments
/// `args` stands for, if any.
pub fn tool_request_from_args(name: &str, args: &JsonValue) -> (r: Option<ToolRequest>)
    ensures
        match r {
            Some(req) => request_for(name@, Some(*args)) == Some(req@),
            None => request_for(name@, Some(*args)) is None,
        },
{
    if str_eq(name, "search_web") {
        match string_arg(args, "query") {
            Some(q) => Some(ToolRequest::SearchWeb { query: q }),
            None => None,
        }
    } else if str_eq(name, "read_url") {
        match string_arg(args, "url") {
            Some(u) => Some(ToolRequest::ReadUrl { url: normalize_url(u.as_str()) }),
            None => None,
        }
    } else if str_eq(name, "read_file") {
        match string_arg(args, "path") {
            Some(p) => Some(ToolRequest::ReadFile { path: normalize_file_path(p.as_str()) }),
            None => None,
        }
    } else {
        None
    }
}

/// Turns the planner's tool calls into tool requests, skipping calls whose
/// arguments are not JSON, whose tool is unknown, or whose argument is
/// missing; no calls give no requests.
pub fn parse_tool_requests(tool_calls: Option<&[OpenRouterToolCall]>) -> (r: Vec<ToolRequest>)
    ensures
        requests_view(r@) == match tool_calls {
            None => Seq::<RequestView>::empty(),
            Some(calls) => requests_for(calls@),
        },
{
    let mut requests: Vec<ToolRequest> = Vec::new();
    let calls = match tool_calls {
        None => {
            assert(requests_view(requests@) =~= Seq::<RequestView>::empty());
            return requests;
        },
        Some(c) => c,
    };
    let mut i: usize = 0;
    assert(requests_view(requests@) =~= requests_for(calls@.take(0)));
    while i < calls.len()
        invariant
            i <= calls@.len(),
            requests_view(requests@) == requests_for(calls@.take(i as int)),
        decreases calls.len() - i,
    {
        let call = &calls[i];
        assert(calls@.take(i + 1).drop_last() == calls@.take(i as int));
        assert(calls@.take(i + 1).last() == calls@[i as int]);
        match parse_json(call.function.arguments.as_str()) {
            None => {},
            Some(args) => match tool_request_from_args(call.function.name.as_str(), &args) {
                Some(req) => {
                    let ghost before = requests@;
                    requests.push(req);
                    assert(requests_view(requests@) =~= requests_view(before).push(req@));
                },
                None => {},
            },
        }
        i = i + 1;
    }
    assert(calls@.take(calls@.len() as int) == calls@);
    requests
}

/// The message of one choice of a chat reply.
pub struct ChatMessage {
    pub content: Option<String>,
    pub tool_calls: Option<Vec<OpenRouterToolCall>>,
}

/// One choice of a chat reply.
pub struct ChatChoice {
    pub message: ChatMessage,
}

/// A chat completions reply.
pub struct ChatResponse {
    pub choices: Vec<ChatChoice>,
}

/// Why a chat reply gives no usable answer.
#[derive(Debug, PartialEq, Eq)]
pub enum LlmError {
    /// The reply holds no choice.
    NoChoices,
    /// The chosen message holds no text.
    NoTextContent,
}

impl LlmError {
    /// The message shown for this error.
    pub fn message(&self) -> (r: String)
        ensures
            r@ == match self {
                LlmError::NoChoices => "LLM response did not include any choices"@,
                LlmError::NoTextContent => "LLM response did not include text content"@,
            },
    {
        match self {
            LlmError::NoChoices => "LLM response did not include any choices".to_owned(),
            LlmError::NoTextContent => "LLM response did not include text content".to_owned(),
        }
    }
}

/// The message of the first choice of a reply; an error when there is none.
pub fn first_message(response: ChatResponse) -> (r: Result<ChatMessage, LlmError>)
    ensures
        response.choices@.len() == 0 ==> r == Err::<ChatMessage, LlmError>(LlmError::NoChoices),
        response.choices@.len() > 0 ==> r == Ok::<ChatMessage, LlmError>(
            response.choices@[0].message,
        ),
{
    let mut choices = response.choices;
    if choices.len() == 0 {
        Err(LlmError::NoChoices)
    } else {
        let first = choices.remove(0);
        Ok(first.message)
    }
}

/// The text of the answering message; an error when it has none.
pub fn answer_text(message: ChatMessage) -> (r: Result<String, LlmError>)
    ensures
        match message.content {
            Some(t) => r == Ok::<String, LlmError>(t),
            None => r == Err::<String, LlmError>(LlmError::NoTextContent),
        },
{
    match message.content {
        Some(t) => Ok(t),
        None => Err(LlmError::NoTextContent),
    }
}

/// Whether a request is well formed for its tool: a URL to read carries
/// the `http://` or `https://` scheme.
pub open spec fn request_has_scheme(r: RequestView) -> bool {
    match r {
        RequestView::ReadUrl(u) => "http://"@.is_prefix_of(u) || "https://"@.is_prefix_of(u),
        _ => true,
    }
}

/// Every URL the planner asks to read reaches the tools with an
/// `http://` or `https://` scheme: bare domains get `https://`.
pub proof fn lemma_url_requests_have_scheme(calls: Seq<OpenRouterToolCall>)
    ensures
        forall|k: int|
            0 <= k < requests_for(calls).len() ==> request_has_scheme(
                #[trigger] requests_for(calls)[k],
            ),
    decreases calls.len(),
{
    if calls.len() > 0 {
        lemma_url_requests_have_scheme(calls.drop_last());
        let c = calls.last();
        let args = parsed_json(c.function.arguments@);
        match args {
            Some(a) => match json_str(json_get(a, "url"@)) {
                Some(u) => crate::tools::lemma_normalized_url_has_scheme(u),
                None => {},
            },
            None => {},
        }
        let prev = requests_for(calls.drop_last());
        assert forall|k: int| 0 <= k < requests_for(calls).len() implies request_has_scheme(
            #[trigger] requests_for(calls)[k],
        ) by {
            if k < prev.len() {
                assert(requests_for(calls)[k] == prev[k]);
            }
        }
    }
}

/// The name of the `i`-th tool offered to the planner.
pub open spec fn tool_name(i: int) -> Seq<char> {
    if i == 0 {
        "search_web"@
    } else if i == 1 {
        "read_url"@
    } else {
        "read_file"@
    }
}

/// The one argument of the `i`-th tool.
pub open spec fn tool_param(i: int) -> Seq<char> {
    if i == 0 {
        "query"@
    } else if i == 1 {
        "url"@
    } else {
        "path"@
    }
}

/// What the planner is told the `i`-th tool is for.
pub open spec fn tool_description(i: int) -> Seq<char> {
    if i == 0 {
        "Search the web when the user asks to find links, look up current information, or discover pages about a topic. Do not use this when the user names a specific URL or domain."@
    } else if i == 1 {
        "Fetch and read a web page when the user mentions a URL or domain, such as rust-lang.org. Use https:// for bare domains."@
    } else {
        "Read a local file from the current working directory when the user asks about a file, for example README, Cargo.toml, or src/main.rs."@
    }
}

/// What the planner is told the argument of the `i`-th tool is.
pub open spec fn tool_param_description(i: int) -> Seq<char> {
    if i == 0 {
        "The web search query."@
    } else if i == 1 {
        "The URL to fetch. Bare domains should be normalized to https://."@
    } else {
        "The local file path to read."@
    }
}

/// Whether `item` defines the `i`-th tool as a function: its name and
/// description, and parameters that are an object with exactly one
/// property, the tool's argument, a described string, which is required,
/// and no other properties allowed.
pub open spec fn describes_tool(item: JsonValue, i: int) -> bool {
    let f = json_get(item, "function"@);
    let p = json_get_opt(f, "parameters"@);
    let props = json_get_opt(p, "properties"@);
    let prop = json_get_opt(props, tool_param(i));
    let required = json_array(json_get_opt(p, "required"@));
    &&& member_keys(Some(item)) == Some(seq!["type"@, "function"@])
    &&& json_str(json_get(item, "type"@)) == Some("function"@)
    &&& member_keys(f) == Some(seq!["name"@, "description"@, "parameters"@])
    &&& json_str(json_get_opt(f, "name"@)) == Some(tool_name(i))
    &&& json_str(json_get_opt(f, "description"@)) == Some(tool_description(i))
    &&& member_keys(p) == Some(
        seq!["type"@, "properties"@, "required"@, "additionalProperties"@],
    )
    &&& json_str(json_get_opt(p, "type"@)) == Some("object"@)
    &&& member_keys(props) == Some(seq![tool_param(i)])
    &&& member_keys(prop) == Some(seq!["type"@, "description"@])
    &&& json_str(json_get_opt(prop, "type"@)) == Some("string"@)
    &&& json_str(json_get_opt(prop, "description"@)) == Some(tool_param_description(i))
    &&& required is Some
    &&& required->0.len() == 1
    &&& json_str(Some(required->0[0])) == Some(tool_param(i))
    &&& json_get_opt(p, "additionalProperties"@) == Some(JsonValue::Bool(false))
}

/// Whether `v` is the list of the three tool definitions, in order.
pub open spec fn describes_tools(v: JsonValue) -> bool {
    match v {
        JsonValue::Array(items) => items@.len() == 3 && forall|i: int|
            0 <= i < 3 ==> describes_tool(#[trigger] items@[i], i),
        _ => false,
    }
}

fn object2(a: (String, JsonValue), b: (String, JsonValue)) -> (r: JsonValue)
    requires
        a.0@ != b.0@,
    ensures
        member_keys(Some(r)) == Some(seq![a.0@, b.0@]),
        json_get(r, a.0@) == Some(a.1),
        json_get(r, b.0@) == Some(b.1),
{
    let mut m: Vec<(String, JsonValue)> = Vec::new();
    m.push(a);
    m.push(b);
    proof {
        lemma_lookup_at(m@, m@[0].0@, 0);
        lemma_lookup_at(m@, m@[1].0@, 1);
        assert(m@.map_values(|x: (String, JsonValue)| x.0@) =~= seq![m@[0].0@, m@[1].0@]);
    }
    JsonValue::Object(m)
}

fn object3(a: (String, JsonValue), b: (String, JsonValue), c: (String, JsonValue)) -> (r:
    JsonValue)
    requires
        a.0@ != b.0@,
        a.0@ != c.0@,
        b.0@ != c.0@,
    ensures
        member_keys(Some(r)) == Some(seq![a.0@, b.0@, c.0@]),
        json_get(r, a.0@) == Some(a.1),
        json_get(r, b.0@) == Some(b.1),
        json_get(r, c.0@) == Some(c.1),
{
    let mut m: Vec<(String, JsonValue)> = Vec::new();
    m.push(a);
    m.push(b);
    m.push(c);
    proof {
        lemma_lookup_at(m@, m@[0].0@, 0);
        lemma_lookup_at(m@, m@[1].0@, 1);
        lemma_lookup_at(m@, m@[2].0@, 2);
        assert(m@.map_values(|x: (String, JsonValue)| x.0@) =~= seq![
            m@[0].0@,
            m@[1].0@,
            m@[2].0@,
        ]);
    }
    JsonValue::Object(m)
}

fn object4(
    a: (String, JsonValue),
    b: (String, JsonValue),
    c: (String, JsonValue),
    d: (String, JsonValue),
) -> (r: JsonValue)
    requires
        a.0@ != b.0@,
        a.0@ != c.0@,
        a.0@ != d.0@,
        b.0@ != c.0@,
        b.0@ != d.0@,
        c.0@ != d.0@,
    ensures
        member_keys(Some(r)) == Some(seq![a.0@, b.0@, c.0@, d.0@]),
        json_get(r, a.0@) == Some(a.1),
        json_get(r, b.0@) == Some(b.1),
        json_get(r, c.0@) == Some(c.1),
        json_get(r, d.0@) == Some(d.1),
{
    let mut m: Vec<(String, JsonValue)> = Vec::new();
    m.push(a);
    m.push(b);
    m.push(c);
    m.push(d);
    proof {
        lemma_lookup_at(m@, m@[0].0@, 0);
        lemma_lookup_at(m@, m@[1].0@, 1);
        lemma_lookup_at(m@, m@[2].0@, 2);
        lemma_lookup_at(m@, m@[3].0@, 3);
        assert(m@.map_values(|x: (String, JsonValue)| x.0@) =~= seq![
            m@[0].0@,
            m@[1].0@,
            m@[2].0@,
            m@[3].0@,
        ]);
    }
    JsonValue::Object(m)
}

fn object1(a: (String, JsonValue)) -> (r: JsonValue)
    ensures
        member_keys(Some(r)) == Some(seq![a.0@]),
        json_get(r, a.0@) == Some(a.1),
{
    let mut m: Vec<(String, JsonValue)> = Vec::new();
    m.push(a);
    proof {
        lemma_lookup_at(m@, m@[0].0@, 0);
        assert(m@.map_values(|x: (String, JsonValue)| x.0@) =~= seq![m@[0].0@]);
    }
    JsonValue::Object(m)
}

fn tool_definition(i: usize) -> (r: JsonValue)
    requires
        i < 3,
    ensures
        describes_tool(r, i as int),
{
    proof {
        reveal_strlit("type");
        reveal_strlit("function");
        reveal_strlit("name");
        reveal_strlit("description");
        reveal_strlit("parameters");
        reveal_strlit("properties");
        reveal_strlit("required");
        reveal_strlit("additionalProperties");
        assert("type"@.len() == 4);
        assert("description"@.len() == 11);
        assert("properties"@.len() == 10);
        assert("required"@.len() == 8);
        assert("additionalProperties"@.len() == 20);
        assert("type"@ != "description"@);
        assert("type"@ != "properties"@);
        assert("type"@ != "required"@);
        assert("type"@ != "additionalProperties"@);
        assert("properties"@ != "required"@);
        assert("properties"@ != "additionalProperties"@);
        assert("required"@ != "additionalProperties"@);
        assert("name"@.len() == 4);
        assert("parameters"@.len() == 10);
        assert("function"@.len() == 8);
        assert("name"@ != "description"@);
        assert("name"@ != "parameters"@);
        assert("description"@ != "parameters"@);
        assert("type"@ != "function"@);
    }
    let (name, description, param, param_description) = if i == 0 {
        (
            "search_web",
            "Search the web when the user asks to find links, look up current information, or discover pages about a topic. Do not use this when the user names a specific URL or domain.",
            "query",
            "The web search query.",
        )
    } else if i == 1 {
        (
            "read_url",
            "Fetch and read a web page when the user mentions a URL or domain, such as rust-lang.org. Use https:// for bare domains.",
            "url",
            "The URL to fetch. Bare domains should be normalized to https://.",
        )
    } else {
        (
            "read_file",
            "Read a local file from the current working directory when the user asks about a file, for example README, Cargo.toml, or src/main.rs.",
            "path",
            "The local file path to read.",
        )
    };
    assert(name@ == tool_name(i as int) && param@ == tool_param(i as int) && description@
        == tool_description(i as int) && param_description@ == tool_param_description(
        i as int,
    ));
    let prop = object2(member("type", text_value("string")), member("description", text_value(param_description)));
    let props = object1(member(param, prop));
    let mut required: Vec<JsonValue> = Vec::new();
    required.push(text_value(param));
    let parameters = object4(
        member("type", text_value("object")),
        member("properties", props),
        member("required", JsonValue::Array(required)),
        member("additionalProperties", JsonValue::Bool(false)),
    );
    let function = object3(
        member("name", text_value(name)),
        member("description", text_value(description)),
        member("parameters", parameters),
    );
    object2(member("type", text_value("function")), member("function", function))
}

/// The tools offered to the planner: `search_web`, `read_url` and
/// `read_file`, each a function of one required string argument (`query`,
/// `url`, `path`) and nothing else.
pub fn tool_definitions() -> (r: JsonValue)
    ensures
        describes_tools(r),
{
    let mut items: Vec<JsonValue> = Vec::new();
    items.push(tool_definition(0));
    items.push(tool_definition(1));
    items.push(tool_definition(2));
    let r = JsonValue::Array(items);
    assert(forall|i: int| 0 <= i < 3 ==> describes_tool(#[trigger] items@[i], i));
    r
}

/// The request that the `i`-th tool with argument `s` stands for.
pub open spec fn offered_request(i: int, s: Seq<char>) -> RequestView {
    if i == 0 {
        RequestView::SearchWeb(s)
    } else if i == 1 {
        RequestView::ReadUrl(normalized_url(s))
    } else {
        RequestView::ReadFile(canonical_file_name(lowercase(trim(s))))
    }
}

/// What the planner is offered is what the parser accepts: a call of the
/// `i`-th offered tool whose arguments give its parameter as a string `s`
/// (such as the object `{tool_param(i): s}`) stands for the `i`-th kind of
/// request on `s`.
pub proof fn lemma_offered_tools_are_accepted(i: int, args: JsonValue, s: Seq<char>)
    requires
        0 <= i < 3,
        json_str(json_get(args, tool_param(i))) == Some(s),
    ensures
        request_for(tool_name(i), Some(args)) == Some(offered_request(i, s)),
{
    reveal_strlit("search_web");
    reveal_strlit("read_url");
    reveal_strlit("read_file");
    assert("search_web"@.len() == 10);
    assert("read_url"@.len() == 8);
    assert("read_file"@.len() == 9);
    assert("read_url"@ != "search_web"@);
    assert("read_file"@ != "search_web"@);
    assert("read_file"@ != "read_url"@) by {
        assert("read_file"@[5] != "read_url"@[5]);
    }
}

/// The instructions given to the planner, which picks the tools.
pub const PLANNER_SYSTEM_PROMPT: &'static str = "You are Anaphor's tool router. Select zero or more tools needed to answer the user's request.\n\nUse read_file for local file requests like README, Cargo.toml, or source files.\nUse read_url when the request names a URL or bare domain; normalize bare domains to https://.\nUse search_web when the user asks to find links, search the web, or asks about current/external information without naming a specific URL. Do not use search_web for requests that name a specific URL or domain.\nIf no tool is needed, answer without tool calls.";

/// The instructions given to the model that answers.
pub const ANSWERER_SYSTEM_PROMPT: &'static str = "You are Anaphor, a compact terminal context resolver.\n\nAnswer the user's question using the provided context.\nIf sources are provided, cite them numerically using their URLs or source labels.\nDo not invent sources.\nIf the context is insufficient, say so.\nBe concise, technical, and direct.\nFor structured answers, use compact Markdown: headings with ###, bullets with -, inline code with backticks, and bold labels with **label**.";

/// Whether `v` is the chat message `{"role": role, "content": content}`.
pub open spec fn is_chat_message(v: JsonValue, role: Seq<char>, content: Seq<char>) -> bool {
    &&& member_keys(Some(v)) == Some(seq!["role"@, "content"@])
    &&& json_str(json_get(v, "role"@)) == Some(role)
    &&& json_str(json_get(v, "content"@)) == Some(content)
}

/// Whether `v` is the conversation of a system message `system` followed
/// by a user message `user`.
pub open spec fn is_conversation(v: Option<JsonValue>, system: Seq<char>, user: Seq<char>) -> bool {
    match json_array(v) {
        Some(ms) => ms.len() == 2 && is_chat_message(ms[0], "system"@, system) && is_chat_message(
            ms[1],
            "user"@,
            user,
        ),
        None => false,
    }
}

fn chat_message(role: &str, content: &str) -> (r: JsonValue)
    ensures
        is_chat_message(r, role@, content@),
{
    proof {
        reveal_strlit("role");
        reveal_strlit("content");
        assert("role"@ != "content"@) by {
            assert("role"@.len() != "content"@.len());
        }
    }
    object2(member("role", text_value(role)), member("content", text_value(content)))
}

fn conversation(system: &str, user: &str) -> (r: JsonValue)
    ensures
        is_conversation(Some(r), system@, user@),
{
    let mut ms: Vec<JsonValue> = Vec::new();
    ms.push(chat_message("system", system));
    ms.push(chat_message("user", user));
    JsonValue::Array(ms)
}

/// The request that asks the planner which tools `question` needs: the
/// model, the planner's instructions and the question, the tool
/// definitions, and automatic tool choice.
pub fn planner_request(model: &str, question: &str) -> (r: JsonValue)
    ensures
        member_keys(Some(r)) == Some(seq!["model"@, "messages"@, "tools"@, "tool_choice"@]),
        json_str(json_get(r, "model"@)) == Some(model@),
        is_conversation(json_get(r, "messages"@), PLANNER_SYSTEM_PROMPT@, question@),
        json_get(r, "tools"@) is Some,
        describes_tools(json_get(r, "tools"@)->0),
        json_str(json_get(r, "tool_choice"@)) == Some("auto"@),
{
    proof {
        reveal_strlit("model");
        reveal_strlit("messages");
        reveal_strlit("tools");
        reveal_strlit("tool_choice");
        assert("model"@ != "messages"@) by {
            assert("model"@.len() != "messages"@.len());
        }
        assert("model"@ != "tools"@) by {
            assert("model"@[0] != "tools"@[0]);
        }
        assert("model"@ != "tool_choice"@) by {
            assert("model"@.len() != "tool_choice"@.len());
        }
        assert("messages"@ != "tools"@) by {
            assert("messages"@.len() != "tools"@.len());
        }
        assert("messages"@ != "tool_choice"@) by {
            assert("messages"@.len() != "tool_choice"@.len());
        }
        assert("tools"@ != "tool_choice"@) by {
            assert("tools"@.len() != "tool_choice"@.len());
        }
    }
    object4(
        member("model", text_value(model)),
        member("messages", conversation(PLANNER_SYSTEM_PROMPT, question)),
        member("tools", tool_definitions()),
        member("tool_choice", text_value("auto")),
    )
}

/// The request that asks the model to answer `prompt`: the model, the
/// answering instructions and the prompt.
pub fn answer_request(model: &str, prompt: &str) -> (r: JsonValue)
    ensures
        member_keys(Some(r)) == Some(seq!["model"@, "messages"@]),
        json_str(json_get(r, "model"@)) == Some(model@),
        is_conversation(json_get(r, "messages"@), ANSWERER_SYSTEM_PROMPT@, prompt@),
{
    proof {
        reveal_strlit("model");
        reveal_strlit("messages");
        assert("model"@ != "messages"@) by {
            assert("model"@.len() != "messages"@.len());
        }
    }
    object2(
        member("model", text_value(model)),
        member("messages", conversation(ANSWERER_SYSTEM_PROMPT, prompt)),
    )
}

/// The value of the `Authorization` header for `api_key`.
pub fn bearer_header(api_key: &str) -> (r: String)
    ensures
        r@ == "Bearer "@ + api_key@,
{
    let mut v = crate::text::chars_of("Bearer ");
    crate::text::push_str(&mut v, api_key);
    crate::text::string_of(&v)
}

} // verus!
