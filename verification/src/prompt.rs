//! The question the model answers and the prompt it is asked in.
use vstd::prelude::*;

use crate::text::{push_str, string_of};
use crate::tools::{has_content, has_text, truncate, truncated};
use crate::types::{BlockView, ContextBlock};

verus! {

/// How one context block is written into the prompt: its source label,
/// its URL line when it has one, its text, and a blank line.
pub open spec fn block_prompt(b: BlockView) -> Seq<char> {
    "[source: "@ + b.label + "]\n"@ + match b.url {
        Some(u) => "url: "@ + u + "\n"@,
        None => Seq::empty(),
    } + b.text + "\n\n"@
}

/// The blocks `bs` written one after the other.
pub open spec fn blocks_prompt(bs: Seq<BlockView>) -> Seq<char>
    decreases bs.len(),
{
    if bs.len() == 0 {
        Seq::empty()
    } else {
        blocks_prompt(bs.drop_last()) + block_prompt(bs.last())
    }
}

/// Every block is written in turn: the writing of two runs of blocks, one
/// after the other, is the writing of the first run followed by that of
/// the second, so no block is dropped or reordered.
pub proof fn lemma_blocks_prompt_concat(a: Seq<BlockView>, b: Seq<BlockView>)
    ensures
        blocks_prompt(a + b) == blocks_prompt(a) + blocks_prompt(b),
    decreases b.len(),
{
    if b.len() == 0 {
        assert(a + b == a);
        assert(blocks_prompt(a) + Seq::<char>::empty() == blocks_prompt(a));
    } else {
        lemma_blocks_prompt_concat(a, b.drop_last());
        assert((a + b).drop_last() == a + b.drop_last());
        assert((a + b).last() == b.last());
        assert(blocks_prompt(a) + blocks_prompt(b.drop_last()) + block_prompt(b.last())
            == blocks_prompt(a) + (blocks_prompt(b.drop_last()) + block_prompt(b.last())));
    }
}

/// One block alone is written as its source line, its URL line when it
/// has one, its text and a blank line.
pub proof fn lemma_blocks_prompt_one(b: BlockView)
    ensures
        blocks_prompt(seq![b]) == "[source: "@ + b.label + "]\n"@ + match b.url {
            Some(u) => "url: "@ + u + "\n"@,
            None => Seq::<char>::empty(),
        } + b.text + "\n\n"@,
{
    assert(seq![b].drop_last() == Seq::<BlockView>::empty());
    assert(seq![b].last() == b);
    assert(blocks_prompt(Seq::<BlockView>::empty()) == Seq::<char>::empty());
    assert(Seq::<char>::empty() + block_prompt(b) == block_prompt(b));
}

/// The prompt for `question` with the context `bs`: a context section
/// between `---` lines when there is context, then the question.
pub open spec fn prompt_text(question: Seq<char>, bs: Seq<BlockView>) -> Seq<char> {
    (if bs.len() == 0 {
        Seq::empty()
    } else {
        "Context:\n---\n"@ + blocks_prompt(bs) + "---\n\n"@
    }) + "Question:\n"@ + question
}

/// Writes the prompt: every context block with its source, then the question.
pub fn build_prompt(question: &str, contexts: &[ContextBlock]) -> (r: String)
    ensures
        r@ == prompt_text(question@, contexts@.map_values(|b: ContextBlock| b@)),
        ("Question:\n"@ + question@).is_suffix_of(r@),
{
    let ghost bs = contexts@.map_values(|b: ContextBlock| b@);
    let mut out: Vec<char> = Vec::new();
    if contexts.len() > 0 {
        push_str(&mut out, "Context:\n---\n");
        let mut i: usize = 0;
        assert(bs.take(0) =~= Seq::<BlockView>::empty());
        while i < contexts.len()
            invariant
                i <= contexts@.len(),
                bs == contexts@.map_values(|b: ContextBlock| b@),
                out@ == "Context:\n---\n"@ + blocks_prompt(bs.take(i as int)),
            decreases contexts.len() - i,
        {
            let ctx = &contexts[i];
            push_str(&mut out, "[source: ");
            push_str(&mut out, ctx.label.as_str());
            push_str(&mut out, "]\n");
            match &ctx.url {
                Some(u) => {
                    push_str(&mut out, "url: ");
                    push_str(&mut out, u.as_str());
                    push_str(&mut out, "\n");
                },
                None => {},
            }
            push_str(&mut out, ctx.text.as_str());
            push_str(&mut out, "\n\n");
            assert(bs.take(i + 1).drop_last() == bs.take(i as int));
            assert(bs.take(i + 1).last() == ctx@);
            i = i + 1;
        }
        assert(bs.take(contexts@.len() as int) == bs);
        push_str(&mut out, "---\n\n");
    }
    let ghost before = out@;
    push_str(&mut out, "Question:\n");
    push_str(&mut out, question);
    assert(out@.subrange(before.len() as int, out@.len() as int) == "Question:\n"@ + question@);
    string_of(&out)
}

/// Why there is nothing to answer.
#[derive(Debug, PartialEq, Eq)]
pub enum QuestionError {
    /// A question was given but holds only whitespace.
    EmptyQuestion,
    /// No question was given and there is no context to work from.
    NothingToAnswer,
}

impl QuestionError {
    /// The message shown for this error.
    pub fn message(&self) -> (r: String)
        ensures
            r@ == match self {
                QuestionError::EmptyQuestion =>
                    "No question provided. Use 'anaphor --help' for usage."@,
                QuestionError::NothingToAnswer =>
                    "No question or context provided. Use 'anaphor --help' for usage."@,
            },
    {
        match self {
            QuestionError::EmptyQuestion =>
                "No question provided. Use 'anaphor --help' for usage.".to_owned(),
            QuestionError::NothingToAnswer =>
                "No question or context provided. Use 'anaphor --help' for usage.".to_owned(),
        }
    }
}

/// The question asked when none is given but there is context.
pub open spec fn summary_question() -> Seq<char> {
    "Summarize the provided context."@
}

/// The question to answer: the one given unless it is blank; without one,
/// a request to summarize when there is context, and an error otherwise.
pub fn resolve_question(question: Option<String>, has_context: bool) -> (r: Result<
    String,
    QuestionError,
>)
    ensures
        match question {
            Some(q) => if has_text(q@) {
                r is Ok && r->Ok_0@ == q@
            } else {
                r == Err::<String, QuestionError>(QuestionError::EmptyQuestion)
            },
            None => if has_context {
                r is Ok && r->Ok_0@ == summary_question()
            } else {
                r == Err::<String, QuestionError>(QuestionError::NothingToAnswer)
            },
        },
{
    match question {
        Some(q) => {
            if has_content(q.as_str()) {
                Ok(q)
            } else {
                Err(QuestionError::EmptyQuestion)
            }
        },
        None => {
            if has_context {
                Ok("Summarize the provided context.".to_owned())
            } else {
                Err(QuestionError::NothingToAnswer)
            }
        },
    }
}

/// The block made of piped input: labelled `stdin`, cut to `max_chars`;
/// `None` when the input is blank.
pub fn stdin_context(input: &str, max_chars: usize) -> (r: Option<ContextBlock>)
    ensures
        match r {
            None => !has_text(input@),
            Some(b) => has_text(input@) && b@ == BlockView {
                label: "stdin"@,
                text: truncated(input@, max_chars as nat),
                url: None,
            },
        },
{
    if has_content(input) {
        Some(ContextBlock { label: "stdin".to_owned(), text: truncate(input, max_chars), url: None })
    } else {
        None
    }
}

/// How many bytes of piped input are read for a budget of `max_chars`
/// characters: four bytes per character and one more, so that input
/// longer than the budget is seen to be longer; saturating at the largest
/// `usize`.
pub fn stdin_byte_limit(max_chars: usize) -> (r: u64)
    ensures
        r as int == if max_chars as int * 4 + 1 <= usize::MAX as int {
            max_chars as int * 4 + 1
        } else {
            usize::MAX as int
        },
{
    let limit: usize = if max_chars <= (usize::MAX - 1) / 4 {
        max_chars * 4 + 1
    } else {
        usize::MAX
    };
    limit as u64
}

} // verus!
