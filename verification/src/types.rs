//! The values that flow between the planner, the tools and the prompt.
use vstd::prelude::*;

verus! {

/// One source of context handed to the model: a label naming the source,
/// its text, and the URL it came from, if any.
#[derive(Debug, Clone)]
pub struct ContextBlock {
    pub label: String,
    pub text: String,
    pub url: Option<String>,
}

/// A context block seen as character sequences.
pub ghost struct BlockView {
    pub label: Seq<char>,
    pub text: Seq<char>,
    pub url: Option<Seq<char>>,
}

/// The characters of an optional string.
pub open spec fn opt_view(o: Option<String>) -> Option<Seq<char>> {
    match o {
        Some(s) => Some(s@),
        None => None,
    }
}

impl View for ContextBlock {
    type V = BlockView;

    open spec fn view(&self) -> BlockView {
        BlockView { label: self.label@, text: self.text@, url: opt_view(self.url) }
    }
}

/// One web search hit.
#[derive(Debug, Clone, PartialEq, Eq)]
pub struct SearchResult {
    pub title: String,
    pub url: String,
    pub snippet: String,
}

/// A search hit seen as character sequences.
pub ghost struct ResultView {
    pub title: Seq<char>,
    pub url: Seq<char>,
    pub snippet: Seq<char>,
}

impl View for SearchResult {
    type V = ResultView;

    open spec fn view(&self) -> ResultView {
        ResultView { title: self.title@, url: self.url@, snippet: self.snippet@ }
    }
}

/// A tool the planner asked for, with its argument.
#[derive(Debug, PartialEq, Eq)]
pub enum ToolRequest {
    SearchWeb { query: String },
    ReadUrl { url: String },
    ReadFile { path: String },
}

/// A tool request seen as character sequences.
pub ghost enum RequestView {
    SearchWeb(Seq<char>),
    ReadUrl(Seq<char>),
    ReadFile(Seq<char>),
}

impl View for ToolRequest {
    type V = RequestView;

    open spec fn view(&self) -> RequestView {
        match self {
            ToolRequest::SearchWeb { query } => RequestView::SearchWeb(query@),
            ToolRequest::ReadUrl { url } => RequestView::ReadUrl(url@),
            ToolRequest::ReadFile { path } => RequestView::ReadFile(path@),
        }
    }
}

} // verus!
