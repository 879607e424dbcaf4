//! The context budget: every source that goes to the model passes through
//! it, is dropped when its key was seen before or nothing is left, and is
//! cut to what is left otherwise.
use vstd::prelude::*;

use crate::text::{chars_of, push_all, push_str, string_of};
use crate::tools::{decimal, decimal_chars, tool_error_text, truncate_vec, truncated};
use crate::types::{opt_view, BlockView, ContextBlock, ResultView, SearchResult};

verus! {

/// A source offered to the budget: the key it is known by, and the block
/// it would add.
pub ghost struct Candidate {
    pub key: Seq<char>,
    pub label: Seq<char>,
    pub text: Seq<char>,
    pub url: Option<Seq<char>>,
}

/// What the budget holds: characters left, the keys of the blocks
/// accepted (in order), and those blocks.
pub ghost struct BudgetState {
    pub remaining: nat,
    pub keys: Seq<Seq<char>>,
    pub blocks: Seq<BlockView>,
}

/// The budget before any source: `max` characters, nothing accepted.
pub open spec fn fresh_budget(max: nat) -> BudgetState {
    BudgetState { remaining: max, keys: Seq::empty(), blocks: Seq::empty() }
}

/// Offering `c`: nothing changes when no characters are left or its key was
/// seen; otherwise its key is recorded and its block is accepted with the
/// text cut to the characters left, which it then uses up.
pub open spec fn offer(st: BudgetState, c: Candidate) -> BudgetState {
    if st.remaining == 0 || st.keys.contains(c.key) {
        st
    } else {
        let t = truncated(c.text, st.remaining);
        BudgetState {
            remaining: (st.remaining - t.len()) as nat,
            keys: st.keys.push(c.key),
            blocks: st.blocks.push(BlockView { label: c.label, text: t, url: c.url }),
        }
    }
}

/// Offering the candidates `cs` in order.
pub open spec fn offer_all(st: BudgetState, cs: Seq<Candidate>) -> BudgetState
    decreases cs.len(),
{
    if cs.len() == 0 {
        st
    } else {
        offer(offer_all(st, cs.drop_last()), cs.last())
    }
}

/// Offering one more candidate after a sequence is offering it to the
/// state that sequence left.
pub proof fn lemma_offer_push(st: BudgetState, cs: Seq<Candidate>, c: Candidate)
    ensures
        offer_all(st, cs.push(c)) == offer(offer_all(st, cs), c),
        offer_all(st, cs + seq![c]) == offer(offer_all(st, cs), c),
{
    assert(cs.push(c).drop_last() == cs);
    assert(cs + seq![c] == cs.push(c));
}

/// The blocks of `v` as character sequences.
pub open spec fn blocks_of(v: Seq<ContextBlock>) -> Seq<BlockView> {
    v.map_values(|b: ContextBlock| b@)
}

/// Number of characters of all block texts.
pub open spec fn total_chars(bs: Seq<BlockView>) -> nat
    decreases bs.len(),
{
    if bs.len() == 0 {
        0
    } else {
        total_chars(bs.drop_last()) + bs.last().text.len()
    }
}

/// A cut text is never longer than the limit it was cut to.
pub proof fn lemma_truncated_len(s: Seq<char>, max: nat)
    ensures
        truncated(s, max).len() <= max,
        truncated(s, max).len() == if s.len() <= max { s.len() } else { max },
{
}

/// Accepting keeps the sum of characters left and characters accepted:
/// what an accepted block takes is what the budget loses.
pub proof fn lemma_offer_all_accounts(st: BudgetState, cs: Seq<Candidate>)
    ensures
        total_chars(offer_all(st, cs).blocks) + offer_all(st, cs).remaining == total_chars(
            st.blocks,
        ) + st.remaining,
    decreases cs.len(),
{
    if cs.len() > 0 {
        lemma_offer_all_accounts(st, cs.drop_last());
        let mid = offer_all(st, cs.drop_last());
        let c = cs.last();
        if !(mid.remaining == 0 || mid.keys.contains(c.key)) {
            lemma_truncated_len(c.text, mid.remaining);
            let next = offer(mid, c);
            assert(next.blocks.drop_last() == mid.blocks);
        }
    }
}

/// Whatever is offered, the blocks accepted from a
/// fresh budget of `max` characters hold at most `max` characters in all.
pub proof fn lemma_budget_bounds_total(max: nat, cs: Seq<Candidate>)
    ensures
        total_chars(offer_all(fresh_budget(max), cs).blocks) <= max,
{
    lemma_offer_all_accounts(fresh_budget(max), cs);
}

/// A key is accepted at most once: after a candidate with key `k` has been
/// offered, a second candidate with the same key adds no block, whatever
/// the budget held before.
pub proof fn lemma_same_key_accepted_once(st: BudgetState, c1: Candidate, c2: Candidate)
    requires
        c1.key == c2.key,
    ensures
        offer(offer(st, c1), c2).blocks.len() <= st.blocks.len() + 1,
        offer(offer(st, c1), c2).blocks.len() == offer(st, c1).blocks.len(),
{
    let mid = offer(st, c1);
    if mid.keys.len() > st.keys.len() {
        assert(mid.keys[mid.keys.len() - 1] == c2.key);
    }
}

/// Offering more candidates never forgets a key and never gives
/// characters back: the keys accepted so far stay in front.
pub proof fn lemma_offer_all_monotone(st: BudgetState, cs: Seq<Candidate>, a: int, b: int)
    requires
        0 <= a <= b <= cs.len(),
    ensures
        offer_all(st, cs.take(a)).keys.is_prefix_of(offer_all(st, cs.take(b)).keys),
        offer_all(st, cs.take(b)).remaining <= offer_all(st, cs.take(a)).remaining,
    decreases b - a,
{
    if a < b {
        lemma_offer_all_monotone(st, cs, a, b - 1);
        assert(cs.take(b).drop_last() == cs.take(b - 1));
        lemma_truncated_len(cs[b - 1].text, offer_all(st, cs.take(b - 1)).remaining);
    }
}

/// Repeated sources are dropped: once a candidate with some key has been
/// offered, any later candidate with the same key adds no block.
pub proof fn lemma_repeated_key_adds_nothing(st: BudgetState, cs: Seq<Candidate>, i: int, j: int)
    requires
        0 <= i < j < cs.len(),
        cs[i].key == cs[j].key,
    ensures
        offer_all(st, cs.take(j + 1)).blocks == offer_all(st, cs.take(j)).blocks,
{
    assert(cs.take(i + 1).drop_last() == cs.take(i));
    assert(cs.take(j + 1).drop_last() == cs.take(j));
    lemma_offer_all_monotone(st, cs, i + 1, j);
    lemma_offer_all_monotone(st, cs, i, i + 1);
    let before = offer_all(st, cs.take(i));
    let after = offer_all(st, cs.take(i + 1));
    let at_j = offer_all(st, cs.take(j));
    if before.remaining == 0 {
        lemma_offer_all_monotone(st, cs, i, j);
    } else {
        let k = cs[i].key;
        assert(after.keys.contains(k)) by {
            if before.keys.contains(k) {
                let x = choose|x: int| 0 <= x < before.keys.len() && before.keys[x] == k;
                assert(after.keys[x] == k);
            } else {
                assert(after.keys[after.keys.len() - 1] == k);
            }
        }
        let x = choose|x: int| 0 <= x < after.keys.len() && after.keys[x] == k;
        assert(at_j.keys[x] == k);
    }
}

/// Keys are distinct and one per block: offering candidates to a budget
/// whose accepted keys are distinct and match its blocks one for one keeps
/// it so. From a fresh budget, no two accepted blocks share a key.
pub proof fn lemma_offer_all_keys_distinct(st: BudgetState, cs: Seq<Candidate>)
    requires
        st.keys.no_duplicates(),
        st.keys.len() == st.blocks.len(),
    ensures
        offer_all(st, cs).keys.no_duplicates(),
        offer_all(st, cs).keys.len() == offer_all(st, cs).blocks.len(),
        st.blocks.is_prefix_of(offer_all(st, cs).blocks),
    decreases cs.len(),
{
    if cs.len() > 0 {
        lemma_offer_all_keys_distinct(st, cs.drop_last());
        let mid = offer_all(st, cs.drop_last());
        let c = cs.last();
        if !(mid.remaining == 0 || mid.keys.contains(c.key)) {
            let next = offer(mid, c);
            assert forall|x: int, y: int|
                0 <= x < next.keys.len() && 0 <= y < next.keys.len() && x != y implies next.keys[x]
                != next.keys[y] by {
                if x == mid.keys.len() {
                    assert(next.keys[y] == mid.keys[y]);
                } else if y == mid.keys.len() {
                    assert(next.keys[x] == mid.keys[x]);
                } else {
                    assert(next.keys[x] == mid.keys[x]);
                    assert(next.keys[y] == mid.keys[y]);
                }
            }
        }
    }
}

/// The budget that context passes through: characters left and the keys
/// of the blocks accepted.
pub struct ContextBudget {
    remaining: usize,
    seen: Vec<String>,
}

impl ContextBudget {
    /// No key is recorded twice.
    #[verifier::type_invariant]
    spec fn keys_distinct(self) -> bool {
        forall|i: int, j: int|
            0 <= i < j < self.seen@.len() ==> #[trigger] self.seen@[i]@ != #[trigger] self.seen@[j]@
    }

    /// Characters still available.
    pub closed spec fn remaining_chars(&self) -> nat {
        self.remaining as nat
    }

    /// The keys of the blocks accepted so far, in order.
    pub closed spec fn accepted_keys(&self) -> Seq<Seq<char>> {
        self.seen@.map_values(|k: String| k@)
    }

    /// The budget together with the blocks accepted so far.
    pub open spec fn state(&self, contexts: Seq<ContextBlock>) -> BudgetState {
        BudgetState {
            remaining: self.remaining_chars(),
            keys: self.accepted_keys(),
            blocks: blocks_of(contexts),
        }
    }

    /// A budget of `max_chars` characters with no key accepted.
    pub fn new(max_chars: usize) -> (b: Self)
        ensures
            b.remaining_chars() == max_chars,
            b.accepted_keys() == Seq::<Seq<char>>::empty(),
    {
        let b = ContextBudget { remaining: max_chars, seen: Vec::new() };
        assert(b.accepted_keys() =~= Seq::<Seq<char>>::empty());
        b
    }

    fn has_seen(&self, key: &String) -> (r: bool)
        ensures
            r == self.accepted_keys().contains(key@),
    {
        let mut i: usize = 0;
        while i < self.seen.len()
            invariant
                i <= self.seen@.len(),
                forall|j: int| 0 <= j < i ==> self.seen@[j]@ != key@,
            decreases self.seen.len() - i,
        {
            if self.seen[i] == *key {
                assert(self.accepted_keys()[i as int] == key@);
                return true;
            }
            i = i + 1;
        }
        proof {
            if self.accepted_keys().contains(key@) {
                let j = choose|j: int|
                    0 <= j < self.accepted_keys().len() && self.accepted_keys()[j] == key@;
                assert(self.seen@[j]@ == key@);
            }
        }
        false
    }

    /// Offers a block to the budget: it is dropped when nothing is left or
    /// `dedupe_key` was seen; otherwise the key is recorded and the block is
    /// appended to `contexts` with its text cut to the characters left.
    pub fn push(
        &mut self,
        contexts: &mut Vec<ContextBlock>,
        dedupe_key: String,
        label: String,
        text: String,
        url: Option<String>,
    )
        ensures
            final(self).state(final(contexts)@) == offer(
                old(self).state(old(contexts)@),
                Candidate { key: dedupe_key@, label: label@, text: text@, url: opt_view(url) },
            ),
            final(self).accepted_keys().no_duplicates(),
            old(contexts)@.is_prefix_of(final(contexts)@),
            total_chars(blocks_of(final(contexts)@)) + final(self).remaining_chars() == total_chars(
                blocks_of(old(contexts)@),
            ) + old(self).remaining_chars(),
    {
        proof {
            use_type_invariant(&*self);
        }
        let ghost st0 = self.state(contexts@);
        let ghost cand = Candidate { key: dedupe_key@, label: label@, text: text@, url: opt_view(url) };
        proof {
            lemma_offer_push(st0, Seq::empty(), cand);
            assert(Seq::<Candidate>::empty().push(cand) == seq![cand]);
            lemma_offer_all_accounts(st0, seq![cand]);
            assert(seq![cand].drop_last() =~= Seq::<Candidate>::empty());
        }
        if self.remaining == 0 || self.has_seen(&dedupe_key) {
            assert(self.accepted_keys().no_duplicates()) by {
                assert forall|x: int, y: int|
                    0 <= x < self.accepted_keys().len() && 0 <= y < self.accepted_keys().len() && x
                        != y implies self.accepted_keys()[x] != self.accepted_keys()[y] by {
                    if x < y {
                        assert(self.seen@[x]@ != self.seen@[y]@);
                    } else {
                        assert(self.seen@[y]@ != self.seen@[x]@);
                    }
                }
            }
            return ;
        }
        let ghost old_keys = self.accepted_keys();
        let ghost old_seen = self.seen@;
        let ghost old_blocks = blocks_of(contexts@);
        let ghost old_contexts = contexts@;
        let tv = chars_of(text.as_str());
        let t = truncate_vec(&tv, self.remaining);
        let ghost key = dedupe_key@;
        assert forall|i: int| 0 <= i < old_seen.len() implies #[trigger] old_seen[i]@ != key by {
            assert(old_keys[i] == old_seen[i]@);
        }
        self.remaining = self.remaining - t.len();
        let mut seen: Vec<String> = Vec::new();
        std::mem::swap(&mut seen, &mut self.seen);
        seen.push(dedupe_key);
        self.seen = seen;
        assert(self.accepted_keys() =~= old_keys.push(key));
        assert forall|x: int, y: int|
            0 <= x < self.accepted_keys().len() && 0 <= y < self.accepted_keys().len() && x
                != y implies self.accepted_keys()[x] != self.accepted_keys()[y] by {
            if x == old_seen.len() {
                assert(self.seen@[y] == old_seen[y]);
            } else if y == old_seen.len() {
                assert(self.seen@[x] == old_seen[x]);
            } else {
                assert(self.seen@[x] == old_seen[x]);
                assert(self.seen@[y] == old_seen[y]);
                if x < y {
                    assert(old_seen[x]@ != old_seen[y]@);
                } else {
                    assert(old_seen[y]@ != old_seen[x]@);
                }
            }
        }
        let block = ContextBlock { label, text: string_of(&t), url };
        contexts.push(block);
        assert(blocks_of(contexts@) =~= old_blocks.push(block@));
        assert(old_contexts.is_prefix_of(contexts@)) by {
            assert(old_contexts =~= contexts@.subrange(0, old_contexts.len() as int));
        }
    }
}

/// What one tool request came back with; `None` stands for a failure,
/// whatever its cause.
pub enum ToolOutcome {
    SearchWeb { query: String, results: Option<Vec<SearchResult>> },
    ReadUrl { url: String, page: Option<String> },
    ReadFile { path: String, contents: Option<String> },
}

/// How a block that was already there is offered: keyed by its URL, or by
/// its label when it has none.
pub open spec fn existing_candidate(b: BlockView) -> Candidate {
    Candidate {
        key: match b.url {
            Some(u) => u,
            None => "label:"@ + b.label,
        },
        label: b.label,
        text: b.text,
        url: b.url,
    }
}

/// How the search hit at position `idx` is offered: keyed by its URL,
/// labelled by its 1-based rank, its text the title, URL and snippet.
pub open spec fn search_candidate(r: ResultView, idx: nat) -> Candidate {
    Candidate {
        key: "url:"@ + r.url,
        label: "search result "@ + decimal(idx + 1),
        text: "title: "@ + r.title + "\nurl: "@ + r.url + "\n"@ + r.snippet,
        url: Some(r.url),
    }
}

/// How a failure of `tool` on `arg` is offered: its text names the tool
/// and nothing else.
pub open spec fn error_candidate(tool: Seq<char>, arg: Seq<char>) -> Candidate {
    Candidate {
        key: "error:"@ + tool + ":"@ + arg,
        label: "tool errors"@,
        text: tool_error_text(tool),
        url: None,
    }
}

/// The candidates that one outcome offers, in order.
pub open spec fn outcome_candidates(o: ToolOutcome) -> Seq<Candidate> {
    match o {
        ToolOutcome::SearchWeb { query, results } => match results {
            Some(rs) => Seq::new(rs@.len(), |i: int| search_candidate(rs@[i]@, i as nat)),
            None => seq![error_candidate("search_web"@, query@)],
        },
        ToolOutcome::ReadUrl { url, page } => match page {
            Some(p) => seq![
                Candidate {
                    key: "url:"@ + url@,
                    label: "url "@ + url@,
                    text: p@,
                    url: Some(url@),
                },
            ],
            None => seq![error_candidate("read_url"@, url@)],
        },
        ToolOutcome::ReadFile { path, contents } => match contents {
            Some(c) => seq![
                Candidate { key: "file:"@ + path@, label: "file "@ + path@, text: c@, url: None },
            ],
            None => seq![error_candidate("read_file"@, path@)],
        },
    }
}

/// The candidates of all outcomes, one outcome after the other.
pub open spec fn outcomes_candidates(os: Seq<ToolOutcome>) -> Seq<Candidate>
    decreases os.len(),
{
    if os.len() == 0 {
        Seq::empty()
    } else {
        outcomes_candidates(os.drop_last()) + outcome_candidates(os.last())
    }
}

/// Outcomes are offered independently: the candidates of two runs of
/// outcomes, one after the other, are those of the first run followed by
/// those of the second.
pub proof fn lemma_outcomes_candidates_concat(a: Seq<ToolOutcome>, b: Seq<ToolOutcome>)
    ensures
        outcomes_candidates(a + b) == outcomes_candidates(a) + outcomes_candidates(b),
    decreases b.len(),
{
    if b.len() == 0 {
        assert(a + b == a);
        assert(outcomes_candidates(a) + Seq::<Candidate>::empty() == outcomes_candidates(a));
    } else {
        lemma_outcomes_candidates_concat(a, b.drop_last());
        assert((a + b).drop_last() == a + b.drop_last());
        assert((a + b).last() == b.last());
        assert(outcomes_candidates(a) + outcomes_candidates(b.drop_last()) + outcome_candidates(
            b.last(),
        ) == outcomes_candidates(a) + (outcomes_candidates(b.drop_last()) + outcome_candidates(
            b.last(),
        )));
    }
}

/// Everything offered to the budget: the blocks already there, then what
/// the tools returned.
pub open spec fn all_candidates(existing: Seq<BlockView>, os: Seq<ToolOutcome>) -> Seq<Candidate> {
    existing.map_values(|b: BlockView| existing_candidate(b)) + outcomes_candidates(os)
}

fn owned_opt(o: &Option<String>) -> (r: Option<String>)
    ensures
        opt_view(r) == opt_view(*o),
{
    match o {
        Some(s) => Some(s.clone()),
        None => None,
    }
}

fn offer_error(
    budget: &mut ContextBudget,
    contexts: &mut Vec<ContextBlock>,
    tool: &str,
    arg: &String,
)
    ensures
        final(budget).state(final(contexts)@) == offer(
            old(budget).state(old(contexts)@),
            error_candidate(tool@, arg@),
        ),
{
    let mut key = chars_of("error:");
    push_str(&mut key, tool);
    push_str(&mut key, ":");
    push_str(&mut key, arg.as_str());
    let text = crate::tools::sanitized_tool_error(tool);
    budget.push(contexts, string_of(&key), "tool errors".to_owned(), text, None);
}

fn offer_search_results(
    budget: &mut ContextBudget,
    contexts: &mut Vec<ContextBlock>,
    results: &Vec<SearchResult>,
    Ghost(done): Ghost<Seq<Candidate>>,
    Ghost(init): Ghost<BudgetState>,
)
    requires
        old(budget).state(old(contexts)@) == offer_all(init, done),
    ensures
        final(budget).state(final(contexts)@) == offer_all(
            init,
            done + Seq::new(results@.len(), |i: int| search_candidate(results@[i]@, i as nat)),
        ),
{
    let ghost all = Seq::new(results@.len(), |i: int| search_candidate(results@[i]@, i as nat));
    let mut k: usize = 0;
    assert(done + all.take(0) == done);
    while k < results.len()
        invariant
            k <= results@.len(),
            all == Seq::new(results@.len(), |i: int| search_candidate(results@[i]@, i as nat)),
            budget.state(contexts@) == offer_all(init, done + all.take(k as int)),
        decreases results.len() - k,
    {
        let r = &results[k];
        let mut key = chars_of("url:");
        push_str(&mut key, r.url.as_str());
        let mut label = chars_of("search result ");
        let rank = decimal_chars(k + 1);
        push_all(&mut label, &rank);
        let mut text = chars_of("title: ");
        push_str(&mut text, r.title.as_str());
        push_str(&mut text, "\nurl: ");
        push_str(&mut text, r.url.as_str());
        push_str(&mut text, "\n");
        push_str(&mut text, r.snippet.as_str());
        assert(done + all.take(k + 1) == (done + all.take(k as int)).push(all[k as int]));
        proof {
            lemma_offer_push(init, done + all.take(k as int), all[k as int]);
        }
        let ks = string_of(&key);
        let ls = string_of(&label);
        let ts = string_of(&text);
        let us = Some(r.url.clone());
        assert(Candidate { key: ks@, label: ls@, text: ts@, url: opt_view(us) } == all[k as int]);
        budget.push(contexts, ks, ls, ts, us);
        k = k + 1;
    }
    assert(all.take(results@.len() as int) == all);
}

/// Passes the given blocks, then what each tool returned, through one
/// budget of `max_chars` characters: repeated sources are dropped, texts
/// are cut to what is left, and a failed tool contributes only its name.
pub fn gather_context(
    outcomes: Vec<ToolOutcome>,
    contexts: Vec<ContextBlock>,
    max_chars: usize,
) -> (r: Vec<ContextBlock>)
    ensures
        blocks_of(r@) == offer_all(
            fresh_budget(max_chars as nat),
            all_candidates(blocks_of(contexts@), outcomes@),
        ).blocks,
        total_chars(blocks_of(r@)) <= max_chars,
{
    let ghost init = fresh_budget(max_chars as nat);
    let ghost existing = blocks_of(contexts@).map_values(|b: BlockView| existing_candidate(b));
    let mut budget = ContextBudget::new(max_chars);
    let mut out: Vec<ContextBlock> = Vec::new();
    assert(blocks_of(out@) =~= Seq::<BlockView>::empty());
    assert(budget.state(out@) == init);
    assert(existing.take(0) =~= Seq::<Candidate>::empty());
    let mut i: usize = 0;
    while i < contexts.len()
        invariant
            i <= contexts@.len(),
            existing == blocks_of(contexts@).map_values(|b: BlockView| existing_candidate(b)),
            init == fresh_budget(max_chars as nat),
            budget.state(out@) == offer_all(init, existing.take(i as int)),
        decreases contexts.len() - i,
    {
        let ctx = &contexts[i];
        let key = match &ctx.url {
            Some(u) => u.clone(),
            None => {
                let mut k = chars_of("label:");
                push_str(&mut k, ctx.label.as_str());
                string_of(&k)
            },
        };
        assert(existing.take(i + 1).drop_last() == existing.take(i as int));
        assert(existing[i as int] == existing_candidate(contexts@[i as int]@));
        budget.push(&mut out, key, ctx.label.clone(), ctx.text.clone(), owned_opt(&ctx.url));
        i = i + 1;
    }
    assert(existing.take(contexts@.len() as int) == existing);
    assert(existing + outcomes_candidates(outcomes@.take(0)) == existing);
    let mut j: usize = 0;
    while j < outcomes.len()
        invariant
            j <= outcomes@.len(),
            init == fresh_budget(max_chars as nat),
            budget.state(out@) == offer_all(
                init,
                existing + outcomes_candidates(outcomes@.take(j as int)),
            ),
        decreases outcomes.len() - j,
    {
        let ghost done = existing + outcomes_candidates(outcomes@.take(j as int));
        assert(outcomes@.take(j + 1).drop_last() == outcomes@.take(j as int));
        assert(existing + outcomes_candidates(outcomes@.take(j + 1)) == done + outcome_candidates(
            outcomes@[j as int],
        ));
        let ghost o = outcomes@[j as int];
        match &outcomes[j] {
            ToolOutcome::SearchWeb { query, results } => match results {
                Some(rs) => {
                    offer_search_results(&mut budget, &mut out, rs, Ghost(done), Ghost(init));
                    assert(outcome_candidates(o) == Seq::new(
                        rs@.len(),
                        |i: int| search_candidate(rs@[i]@, i as nat),
                    ));
                },
                None => {
                    proof {
                        lemma_offer_push(init, done, error_candidate("search_web"@, query@));
                    }
                    offer_error(&mut budget, &mut out, "search_web", query);
                    assert(done.push(error_candidate("search_web"@, query@)) == done + seq![
                        error_candidate("search_web"@, query@),
                    ]);
                },
            },
            ToolOutcome::ReadUrl { url, page } => match page {
                Some(p) => {
                    let mut key = chars_of("url:");
                    push_str(&mut key, url.as_str());
                    let mut label = chars_of("url ");
                    push_str(&mut label, url.as_str());
                    let ghost c = Candidate {
                        key: "url:"@ + url@,
                        label: "url "@ + url@,
                        text: p@,
                        url: Some(url@),
                    };
                    proof {
                        lemma_offer_push(init, done, c);
                    }
                    budget.push(&mut out, string_of(&key), string_of(&label), p.clone(), Some(url.clone()));
                    assert(done.push(c) == done + seq![c]);
                },
                None => {
                    proof {
                        lemma_offer_push(init, done, error_candidate("read_url"@, url@));
                    }
                    offer_error(&mut budget, &mut out, "read_url", url);
                    assert(done.push(error_candidate("read_url"@, url@)) == done + seq![
                        error_candidate("read_url"@, url@),
                    ]);
                },
            },
            ToolOutcome::ReadFile { path, contents } => match contents {
                Some(c) => {
                    let mut key = chars_of("file:");
                    push_str(&mut key, path.as_str());
                    let mut label = chars_of("file ");
                    push_str(&mut label, path.as_str());
                    let ghost cand = Candidate {
                        key: "file:"@ + path@,
                        label: "file "@ + path@,
                        text: c@,
                        url: None,
                    };
                    proof {
                        lemma_offer_push(init, done, cand);
                    }
                    budget.push(&mut out, string_of(&key), string_of(&label), c.clone(), None);
                    assert(done.push(cand) == done + seq![cand]);
                },
                None => {
                    proof {
                        lemma_offer_push(init, done, error_candidate("read_file"@, path@));
                    }
                    offer_error(&mut budget, &mut out, "read_file", path);
                    assert(done.push(error_candidate("read_file"@, path@)) == done + seq![
                        error_candidate("read_file"@, path@),
                    ]);
                },
            },
        }
        j = j + 1;
    }
    assert(outcomes@.take(outcomes@.len() as int) == outcomes@);
    proof {
        lemma_budget_bounds_total(
            max_chars as nat,
            all_candidates(blocks_of(contexts@), outcomes@),
        );
    }
    out
}

/// Prefixing two texts with the same text keeps them apart.
proof fn lemma_prefix_keeps_apart(a: Seq<char>, x: Seq<char>, y: Seq<char>)
    requires
        x != y,
    ensures
        a + x != a + y,
{
    if a + x == a + y {
        assert((a + x).skip(a.len() as int) == x);
        assert((a + y).skip(a.len() as int) == y);
    }
}

/// Files are told apart by their paths: successful reads of two different
/// paths are offered under different keys, each labelled by its own path.
pub proof fn lemma_file_keys_follow_paths(p1: String, c1: String, p2: String, c2: String)
    requires
        p1@ != p2@,
    ensures
        outcome_candidates(ToolOutcome::ReadFile { path: p1, contents: Some(c1) }).len() == 1,
        outcome_candidates(ToolOutcome::ReadFile { path: p1, contents: Some(c1) })[0].label
            == "file "@ + p1@,
        outcome_candidates(ToolOutcome::ReadFile { path: p1, contents: Some(c1) })[0].key
            != outcome_candidates(ToolOutcome::ReadFile { path: p2, contents: Some(c2) })[0].key,
{
    lemma_prefix_keys_of_files(p1@, p2@);
}

proof fn lemma_prefix_keys_of_files(p1: Seq<char>, p2: Seq<char>)
    requires
        p1 != p2,
    ensures
        "file:"@ + p1 != "file:"@ + p2,
{
    lemma_prefix_keeps_apart("file:"@, p1, p2);
}

/// Two candidates under different keys, offered to a fresh budget with
/// room for both texts, are both accepted whole.
proof fn lemma_two_fresh_kept(f1: Candidate, f2: Candidate, max: nat)
    requires
        f1.key != f2.key,
        f1.text.len() < max,
        f1.text.len() + f2.text.len() <= max,
    ensures
        offer_all(fresh_budget(max), seq![f1, f2]).blocks == seq![
            BlockView { label: f1.label, text: f1.text, url: f1.url },
            BlockView { label: f2.label, text: f2.text, url: f2.url },
        ],
{
    let cs = seq![f1, f2];
    assert(cs.drop_last() == seq![f1]);
    assert(seq![f1].drop_last() == Seq::<Candidate>::empty());
    assert(seq![f1].last() == f1);
    let st0 = fresh_budget(max);
    let st1 = offer(st0, f1);
    assert(offer_all(st0, Seq::<Candidate>::empty()) == st0);
    assert(offer_all(st0, seq![f1]) == st1);
    assert(!st0.keys.contains(f1.key));
    assert(st1.keys == seq![f1.key]);
    assert(!st1.keys.contains(f2.key));
    assert(offer_all(st0, cs) == offer(st1, f2));
}

/// The candidates of two outcomes, offered with nothing before them.
proof fn lemma_two_outcomes_candidates(o1: ToolOutcome, o2: ToolOutcome, f1: Candidate, f2: Candidate)
    requires
        outcome_candidates(o1) == seq![f1],
        outcome_candidates(o2) == seq![f2],
    ensures
        all_candidates(Seq::empty(), seq![o1, o2]) == seq![f1, f2],
{
    let os = seq![o1, o2];
    assert(os.drop_last() == seq![o1]);
    assert(seq![o1].drop_last() == Seq::<ToolOutcome>::empty());
    assert(seq![o1].last() == o1);
    assert(outcomes_candidates(Seq::<ToolOutcome>::empty()) == Seq::<Candidate>::empty());
    assert(Seq::<Candidate>::empty() + seq![f1] =~= seq![f1]);
    assert(outcomes_candidates(seq![o1]) == seq![f1]);
    assert(outcomes_candidates(os) == seq![f1, f2]);
    assert(Seq::<BlockView>::empty().map_values(|b: BlockView| existing_candidate(b))
        == Seq::<Candidate>::empty());
}

/// Distinct files are both kept: reading two files with different paths
/// into a fresh budget that has room for both texts yields one block per
/// file, in order, each labelled `file ` and its path and holding the
/// whole text.
pub proof fn lemma_distinct_files_both_kept(
    p1: String,
    c1: String,
    p2: String,
    c2: String,
    max: nat,
)
    requires
        p1@ != p2@,
        c1@.len() < max,
        c1@.len() + c2@.len() <= max,
    ensures
        offer_all(
            fresh_budget(max),
            all_candidates(
                Seq::empty(),
                seq![
                    ToolOutcome::ReadFile { path: p1, contents: Some(c1) },
                    ToolOutcome::ReadFile { path: p2, contents: Some(c2) },
                ],
            ),
        ).blocks == seq![
            BlockView { label: "file "@ + p1@, text: c1@, url: None },
            BlockView { label: "file "@ + p2@, text: c2@, url: None },
        ],
{
    let f1 = Candidate { key: "file:"@ + p1@, label: "file "@ + p1@, text: c1@, url: None };
    let f2 = Candidate { key: "file:"@ + p2@, label: "file "@ + p2@, text: c2@, url: None };
    lemma_prefix_keys_of_files(p1@, p2@);
    lemma_two_outcomes_candidates(
        ToolOutcome::ReadFile { path: p1, contents: Some(c1) },
        ToolOutcome::ReadFile { path: p2, contents: Some(c2) },
        f1,
        f2,
    );
    lemma_two_fresh_kept(f1, f2, max);
}

/// Distinct pages are both kept: fetching two different URLs into a
/// fresh budget that has room for both pages yields one block per page,
/// in order, each labelled `url ` and its URL, holding the whole page and
/// carrying the URL.
pub proof fn lemma_distinct_pages_both_kept(
    u1: String,
    t1: String,
    u2: String,
    t2: String,
    max: nat,
)
    requires
        u1@ != u2@,
        t1@.len() < max,
        t1@.len() + t2@.len() <= max,
    ensures
        offer_all(
            fresh_budget(max),
            all_candidates(
                Seq::empty(),
                seq![
                    ToolOutcome::ReadUrl { url: u1, page: Some(t1) },
                    ToolOutcome::ReadUrl { url: u2, page: Some(t2) },
                ],
            ),
        ).blocks == seq![
            BlockView { label: "url "@ + u1@, text: t1@, url: Some(u1@) },
            BlockView { label: "url "@ + u2@, text: t2@, url: Some(u2@) },
        ],
{
    let f1 = Candidate { key: "url:"@ + u1@, label: "url "@ + u1@, text: t1@, url: Some(u1@) };
    let f2 = Candidate { key: "url:"@ + u2@, label: "url "@ + u2@, text: t2@, url: Some(u2@) };
    lemma_prefix_keeps_apart("url:"@, u1@, u2@);
    lemma_two_outcomes_candidates(
        ToolOutcome::ReadUrl { url: u1, page: Some(t1) },
        ToolOutcome::ReadUrl { url: u2, page: Some(t2) },
        f1,
        f2,
    );
    lemma_two_fresh_kept(f1, f2, max);
}

/// The name of the tool an outcome came from.
pub open spec fn outcome_tool(o: ToolOutcome) -> Seq<char> {
    match o {
        ToolOutcome::SearchWeb { .. } => "search_web"@,
        ToolOutcome::ReadUrl { .. } => "read_url"@,
        ToolOutcome::ReadFile { .. } => "read_file"@,
    }
}

/// Whether the tool of an outcome failed.
pub open spec fn outcome_failed(o: ToolOutcome) -> bool {
    match o {
        ToolOutcome::SearchWeb { results, .. } => results is None,
        ToolOutcome::ReadUrl { page, .. } => page is None,
        ToolOutcome::ReadFile { contents, .. } => contents is None,
    }
}

/// Tool errors are sanitised: a failed tool offers one block, labelled
/// `tool errors`, without URL, whose text names the tool and nothing else,
/// so neither the request's argument nor the cause of the failure reaches
/// the model.
pub proof fn lemma_failed_tool_offers_only_its_name(o: ToolOutcome)
    requires
        outcome_failed(o),
    ensures
        outcome_candidates(o).len() == 1,
        outcome_candidates(o)[0].label == "tool errors"@,
        outcome_candidates(o)[0].url is None,
        outcome_candidates(o)[0].text == tool_error_text(outcome_tool(o)),
{
}

} // verus!
