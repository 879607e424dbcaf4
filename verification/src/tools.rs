//! The tools' own logic: normalising their arguments, reading search
//! results and pages, and fitting everything they return into one context
//! budget.
use vstd::prelude::*;

use crate::json::{json_array, json_get, json_get_opt, json_str, parse_json, parsed_json, str_eq, JsonValue};
use crate::text::{
    all_ascii, ascii_lower, ascii_lowercase, chars_of, is_ws, is_whitespace, push_all, push_str, repeat_char, string_of, sub_vec,
    trim, trim_vec,
};
use crate::types::{opt_view, ResultView, SearchResult};

verus! {

/// Whether `s` holds a character that is not whitespace.
pub open spec fn has_text(s: Seq<char>) -> bool {
    exists|i: int| 0 <= i < s.len() && !is_ws(s[i])
}

/// Whether `s` holds anything but whitespace.
pub fn has_content(s: &str) -> (r: bool)
    ensures
        r == has_text(s@),
{
    let v = chars_of(s);
    let mut i: usize = 0;
    while i < v.len()
        invariant
            i <= v.len(),
            v@ == s@,
            forall|j: int| 0 <= j < i ==> is_ws(#[trigger] v@[j]),
        decreases v.len() - i,
    {
        if !is_whitespace(v[i]) {
            assert(!is_ws(s@[i as int]));
            return true;
        }
        i = i + 1;
    }
    false
}

/// `url` trimmed, with `https://` put in front unless it already starts
/// with `http://` or `https://`.
pub open spec fn normalized_url(url: Seq<char>) -> Seq<char> {
    let t = trim(url);
    if "http://"@.is_prefix_of(t) || "https://"@.is_prefix_of(t) {
        t
    } else {
        "https://"@ + t
    }
}

/// Trims `url` and gives a bare domain the `https://` scheme.
pub fn normalize_url(url: &str) -> (r: String)
    ensures
        r@ == normalized_url(url@),
{
    let v = chars_of(url);
    let t = trim_vec(&v);
    if crate::text::has_prefix(&t, "http://") || crate::text::has_prefix(&t, "https://") {
        string_of(&t)
    } else {
        let mut out = chars_of("https://");
        push_all(&mut out, &t);
        string_of(&out)
    }
}

/// The lowercase of `s` as `str::to_lowercase` gives it: every character
/// replaced by its Unicode lowercase mapping. It depends on `s` alone.
pub uninterp spec fn lowercase(s: Seq<char>) -> Seq<char>;

/// `str::to_lowercase`. Claimed: the result is `lowercase` of the
/// argument, and on ASCII text it is ASCII lowercasing (`A`-`Z` become
/// `a`-`z`, all else stays). What it gives on other text is not stated.
#[verifier::external_body]
fn to_lowercase(s: &str) -> (r: String)
    ensures
        r@ == lowercase(s@),
        all_ascii(s@) ==> r@ == ascii_lowercase(s@),
{
    s.to_lowercase()
}

/// The file a lowercased name stands for: the usual spellings of the
/// readme, the Cargo manifest, the main source file, the ignore file and the
/// makefile map to their real names; any other name stays as it is.
pub open spec fn canonical_file_name(lowered: Seq<char>) -> Seq<char> {
    if lowered == "readme"@ || lowered == "readme.md"@ {
        "README.md"@
    } else if lowered == "cargo.toml"@ {
        "Cargo.toml"@
    } else if lowered == "main.rs"@ {
        "src/main.rs"@
    } else if lowered == "gitignore"@ || lowered == ".gitignore"@ {
        ".gitignore"@
    } else if lowered == "makefile"@ {
        "Makefile"@
    } else {
        lowered
    }
}

/// What `normalize_file_path` gives for an ASCII path.
pub open spec fn ascii_file_path(path: Seq<char>) -> Seq<char> {
    canonical_file_name(ascii_lowercase(trim(path)))
}

proof fn lemma_ascii_lowercase_facts(t: Seq<char>)
    requires
        all_ascii(t),
    ensures
        all_ascii(ascii_lowercase(t)),
        ascii_lowercase(ascii_lowercase(t)) == ascii_lowercase(t),
        trim(t) == t ==> trim(ascii_lowercase(t)) == ascii_lowercase(t),
{
    let l = ascii_lowercase(t);
    assert forall|i: int| 0 <= i < l.len() implies (#[trigger] l[i] as u32) < 128 by {
        assert(l[i] == ascii_lower(t[i]));
        assert((t[i] as u32) < 128);
    }
    assert(ascii_lowercase(l) =~= l) by {
        assert forall|i: int| 0 <= i < l.len() implies ascii_lowercase(l)[i] == l[i] by {
            assert(l[i] == ascii_lower(t[i]));
        }
    }
    if trim(t) == t && t.len() > 0 {
        crate::text::lemma_trim_shape(t);
        assert(l[0] == ascii_lower(t[0]));
        assert(l.last() == ascii_lower(t.last()));
        crate::text::lemma_trim_stable(l);
    }
}

/// Normalising an ASCII path twice gives what normalising it once gives:
/// the result is ASCII too, and normalises to itself.
pub proof fn lemma_ascii_file_path_idempotent(path: Seq<char>)
    requires
        all_ascii(path),
    ensures
        all_ascii(ascii_file_path(path)),
        ascii_file_path(ascii_file_path(path)) == ascii_file_path(path),
{
    crate::text::lemma_trim_ascii(path);
    crate::text::lemma_trim_idempotent(path);
    let t = trim(path);
    lemma_ascii_lowercase_facts(t);
    let l = ascii_lowercase(t);
    let q = canonical_file_name(l);
    reveal_strlit("readme");
    reveal_strlit("readme.md");
    reveal_strlit("cargo.toml");
    reveal_strlit("main.rs");
    reveal_strlit("gitignore");
    reveal_strlit(".gitignore");
    reveal_strlit("makefile");
    reveal_strlit("README.md");
    reveal_strlit("Cargo.toml");
    reveal_strlit("src/main.rs");
    reveal_strlit("Makefile");
    if q == l {
        assert(trim(q) == q);
        assert(ascii_lowercase(q) == q);
    } else {
        assert(all_ascii(q));
        assert(trim(q) == q);
        if q == "README.md"@ {
            assert(ascii_lowercase(q) =~= "readme.md"@);
        } else if q == "Cargo.toml"@ {
            assert(ascii_lowercase(q) =~= "cargo.toml"@);
        } else if q == "src/main.rs"@ {
            assert(ascii_lowercase(q) =~= "src/main.rs"@);
            assert(q != "readme"@ && q != "readme.md"@ && q != "cargo.toml"@ && q != "main.rs"@
                && q != "gitignore"@ && q != ".gitignore"@ && q != "makefile"@);
        } else if q == ".gitignore"@ {
            assert(ascii_lowercase(q) =~= ".gitignore"@);
        } else {
            assert(q == "Makefile"@);
            assert(ascii_lowercase(q) =~= "makefile"@);
        }
    }
}

/// Maps an already lowercased file name to the file it stands for.
pub fn normalize_lowered_path(lowered: &str) -> (r: String)
    ensures
        r@ == canonical_file_name(lowered@),
{
    if str_eq(lowered, "readme") || str_eq(lowered, "readme.md") {
        "README.md".to_owned()
    } else if str_eq(lowered, "cargo.toml") {
        "Cargo.toml".to_owned()
    } else if str_eq(lowered, "main.rs") {
        "src/main.rs".to_owned()
    } else if str_eq(lowered, "gitignore") || str_eq(lowered, ".gitignore") {
        ".gitignore".to_owned()
    } else if str_eq(lowered, "makefile") {
        "Makefile".to_owned()
    } else {
        lowered.to_owned()
    }
}

/// Trims and lowercases a requested file path, then maps the usual
/// spellings of well-known files to their real names.
pub fn normalize_file_path(path: &str) -> (r: String)
    ensures
        r@ == canonical_file_name(lowercase(trim(path@))),
        all_ascii(path@) ==> r@ == ascii_file_path(path@),
{
    let v = chars_of(path);
    let t = string_of(&trim_vec(&v));
    proof {
        if all_ascii(path@) {
            crate::text::lemma_trim_ascii(path@);
        }
    }
    let lowered = to_lowercase(t.as_str());
    normalize_lowered_path(lowered.as_str())
}

/// `s` cut to at most `max` characters: unchanged when it fits; otherwise
/// its first `max - 3` characters and `...`, or just `max` dots when `max`
/// is 3 or less.
pub open spec fn truncated(s: Seq<char>, max: nat) -> Seq<char> {
    if s.len() <= max {
        s
    } else if max <= 3 {
        repeat_char('.', max)
    } else {
        s.take(max - 3) + seq!['.', '.', '.']
    }
}

/// Cuts `s` to at most `max_chars` characters, marking a cut with dots.
pub fn truncate(s: &str, max_chars: usize) -> (r: String)
    ensures
        r@ == truncated(s@, max_chars as nat),
        r@.len() == if s@.len() <= max_chars { s@.len() } else { max_chars as nat },
        s@.len() <= max_chars ==> r@ == s@,
        s@.len() > max_chars ==> forall|i: int|
            0 <= i < r@.len() ==> #[trigger] r@[i] == if i < max_chars - 3 {
                s@[i]
            } else {
                '.'
            },
{
    let v = chars_of(s);
    let r = truncate_vec(&v, max_chars);
    string_of(&r)
}

/// `truncate` on characters.
pub fn truncate_vec(s: &Vec<char>, max_chars: usize) -> (r: Vec<char>)
    ensures
        r@ == truncated(s@, max_chars as nat),
        r@.len() == if s@.len() <= max_chars { s@.len() } else { max_chars as nat },
{
    if s.len() <= max_chars {
        sub_vec(s, 0, s.len())
    } else if max_chars <= 3 {
        let mut r: Vec<char> = Vec::new();
        let mut i: usize = 0;
        while i < max_chars
            invariant
                i <= max_chars,
                r@ == repeat_char('.', i as nat),
            decreases max_chars - i,
        {
            r.push('.');
            i = i + 1;
            assert(r@ == repeat_char('.', i as nat));
        }
        r
    } else {
        let mut r = sub_vec(s, 0, max_chars - 3);
        r.push('.');
        r.push('.');
        r.push('.');
        assert(r@ == s@.take(max_chars - 3) + seq!['.', '.', '.']);
        r
    }
}

/// The text put in place of a failed tool's error: the tool's name and
/// nothing of what went wrong.
pub open spec fn tool_error_text(tool_name: Seq<char>) -> Seq<char> {
    tool_name + " failed; details omitted"@
}

/// The message that stands for any failure of `tool_name`.
pub fn sanitized_tool_error(tool_name: &str) -> (r: String)
    ensures
        r@ == tool_error_text(tool_name@),
{
    let mut v = chars_of(tool_name);
    push_str(&mut v, " failed; details omitted");
    string_of(&v)
}

/// The decimal digits of `n`.
pub open spec fn decimal(n: nat) -> Seq<char>
    decreases n,
{
    if n < 10 {
        seq![digit(n)]
    } else {
        decimal(n / 10).push(digit(n % 10))
    }
}

/// The digit character for `d < 10`.
pub open spec fn digit(d: nat) -> char {
    (48 + d) as char
}

/// The decimal digits of `n`, as `usize`'s `Display` writes them.
pub fn decimal_chars(n: usize) -> (r: Vec<char>)
    ensures
        r@ == decimal(n as nat),
    decreases n,
{
    if n < 10 {
        let mut r: Vec<char> = Vec::new();
        r.push(digit_char(n));
        r
    } else {
        let mut r = decimal_chars(n / 10);
        r.push(digit_char(n % 10));
        r
    }
}

fn digit_char(d: usize) -> (c: char)
    requires
        d < 10,
    ensures
        c == digit(d as nat),
{
    let b = (48 + d) as u8;
    b as char
}

/// The search hit that one entry of a Brave response describes: its
/// `title`, `url` and `description`, all three strings, or `None`.
pub open spec fn brave_item(item: JsonValue) -> Option<ResultView> {
    match (
        json_str(json_get(item, "title"@)),
        json_str(json_get(item, "url"@)),
        json_str(json_get(item, "description"@)),
    ) {
        (Some(t), Some(u), Some(d)) => Some(ResultView { title: t, url: u, snippet: d }),
        _ => None,
    }
}

/// The hits of the entries `items`, in order, incomplete entries left out.
pub open spec fn brave_items(items: Seq<JsonValue>) -> Seq<ResultView>
    decreases items.len(),
{
    if items.len() == 0 {
        Seq::empty()
    } else {
        match brave_item(items.last()) {
            Some(r) => brave_items(items.drop_last()).push(r),
            None => brave_items(items.drop_last()),
        }
    }
}

/// One entry yields its hit when it is complete, and nothing otherwise.
pub proof fn lemma_brave_items_one(x: JsonValue)
    ensures
        brave_items(seq![x]) == match brave_item(x) {
            Some(r) => seq![r],
            None => Seq::<ResultView>::empty(),
        },
{
    assert(seq![x].drop_last() == Seq::<JsonValue>::empty());
    assert(seq![x].last() == x);
    assert(brave_items(Seq::<JsonValue>::empty()) == Seq::<ResultView>::empty());
    match brave_item(x) {
        Some(r) => {
            assert(Seq::<ResultView>::empty().push(r) == seq![r]);
        },
        None => {},
    }
}

/// Entries are read independently: the hits of two runs of entries, one
/// after the other, are the hits of the first run followed by those of
/// the second, however many hits came before.
pub proof fn lemma_brave_items_concat(a: Seq<JsonValue>, b: Seq<JsonValue>)
    ensures
        brave_items(a + b) == brave_items(a) + brave_items(b),
    decreases b.len(),
{
    if b.len() == 0 {
        assert(a + b == a);
        assert(brave_items(a) + Seq::<ResultView>::empty() == brave_items(a));
    } else {
        lemma_brave_items_concat(a, b.drop_last());
        assert((a + b).drop_last() == a + b.drop_last());
        assert((a + b).last() == b.last());
        match brave_item(b.last()) {
            Some(r) => {
                assert(brave_items(a) + brave_items(b.drop_last()).push(r) == (brave_items(a)
                    + brave_items(b.drop_last())).push(r));
            },
            None => {},
        }
    }
}

/// Every complete entry yields one hit: there are as many hits as entries
/// with a string title, URL and description.
pub proof fn lemma_brave_items_count(items: Seq<JsonValue>)
    ensures
        brave_items(items).len() == items.filter(|x: JsonValue| brave_item(x) is Some).len(),
    decreases items.len(),
{
    let p = |x: JsonValue| brave_item(x) is Some;
    if items.len() == 0 {
        reveal(Seq::filter);
        assert(items.filter(p) == items);
    } else {
        lemma_brave_items_count(items.drop_last());
        items.drop_last().lemma_filter_len_push(p, items.last());
        assert(items.drop_last().push(items.last()) == items);
    }
}

/// The hits of a Brave web search response: the complete entries of
/// `web.results`, none when that array is missing.
pub open spec fn brave_results(data: JsonValue) -> Seq<ResultView> {
    match json_array(json_get_opt(json_get(data, "web"@), "results"@)) {
        Some(items) => brave_items(items),
        None => Seq::empty(),
    }
}

/// The search hits as character sequences.
pub open spec fn results_view(v: Seq<SearchResult>) -> Seq<ResultView> {
    v.map_values(|r: SearchResult| r@)
}

fn owned_str(s: &str) -> (r: String)
    ensures
        r@ == s@,
{
    s.to_owned()
}

/// Reads the hits out of a Brave web search response, skipping entries
/// that lack a title, a URL or a description.
pub fn parse_brave_results(data: &JsonValue) -> (r: Vec<SearchResult>)
    ensures
        results_view(r@) == brave_results(*data),
{
    let mut results: Vec<SearchResult> = Vec::new();
    let web = data.get("web");
    let arr = match web {
        Some(w) => match w.get("results") {
            Some(x) => x.as_array(),
            None => None,
        },
        None => None,
    };
    match arr {
        None => {
            assert(results_view(results@) =~= Seq::<ResultView>::empty());
        },
        Some(items) => {
            let mut i: usize = 0;
            assert(results_view(results@) =~= brave_items(items@.take(0)));
            while i < items.len()
                invariant
                    i <= items@.len(),
                    results_view(results@) == brave_items(items@.take(i as int)),
                decreases items.len() - i,
            {
                let item = &items[i];
                assert(items@.take(i + 1).drop_last() == items@.take(i as int));
                assert(items@.take(i + 1).last() == items@[i as int]);
                let title = match item.get("title") {
                    Some(v) => v.as_str(),
                    None => None,
                };
                let url = match item.get("url") {
                    Some(v) => v.as_str(),
                    None => None,
                };
                let snippet = match item.get("description") {
                    Some(v) => v.as_str(),
                    None => None,
                };
                match (title, url, snippet) {
                    (Some(t), Some(u), Some(d)) => {
                        let r = SearchResult {
                            title: owned_str(t),
                            url: owned_str(u),
                            snippet: owned_str(d),
                        };
                        let ghost before = results@;
                        results.push(r);
                        assert(results_view(results@) =~= results_view(before).push(r@));
                    },
                    _ => {},
                }
                i = i + 1;
            }
            assert(items@.take(items@.len() as int) == items@);
        },
    }
    results
}

/// Reads the hits out of the body of a Brave web search response; `None`
/// when the body is not JSON.
pub fn brave_results_from_body(body: &str) -> (r: Option<Vec<SearchResult>>)
    ensures
        match parsed_json(body@) {
            None => r is None,
            Some(v) => r is Some && results_view(r->0@) == brave_results(v),
        },
{
    match parse_json(body) {
        None => None,
        Some(v) => Some(parse_brave_results(&v)),
    }
}

/// Columns that page text is wrapped to.
pub const PAGE_WIDTH: usize = 80;

#[verifier::external_type_specification]
#[verifier::external_body]
pub struct ExHtml2TextError(html2text::Error);

/// The text that `html2text` renders from the page `html` wrapped to
/// `width` columns, or `None` when it reports an error. It depends on its
/// arguments alone.
pub uninterp spec fn html_text(html: Seq<char>, width: usize) -> Option<Seq<char>>;

/// Whether `c` is whitespace to HTML's tokenizer (carriage returns count,
/// as the tokenizer reads them as line feeds).
pub open spec fn is_html_space(c: char) -> bool {
    c == ' ' || c == '\t' || c == '\n' || c == '\r' || c == '\x0c'
}

/// The first index from `j` on that is not HTML whitespace.
pub open spec fn skip_html_space(s: Seq<char>, j: int) -> int
    decreases s.len() - j,
{
    if 0 <= j < s.len() && is_html_space(s[j]) {
        skip_html_space(s, j + 1)
    } else {
        j
    }
}

/// The first index from `j` on that is not an ASCII digit.
pub open spec fn digit_run_end(s: Seq<char>, j: int) -> int
    decreases s.len() - j,
{
    if 0 <= j < s.len() && crate::config::is_digit(s[j]) {
        digit_run_end(s, j + 1)
    } else {
        j
    }
}

/// Whether `c` is a quote mark.
pub open spec fn is_quote(c: char) -> bool {
    c == '"' || c == '\''
}

/// Whether `s` spells `colspan`, in any ASCII case, at `i`.
pub open spec fn spells_colspan_at(s: Seq<char>, i: int) -> bool {
    &&& 0 <= i
    &&& i + 7 <= s.len()
    &&& forall|k: int| 0 <= k < 7 ==> ascii_lower(#[trigger] s[i + k]) == "colspan"@[k]
}

/// Whether what follows at `j` is `=` and a value of one to four digits,
/// optionally quoted, closed by a quote, whitespace or `>`: a column span
/// below 10000.
pub open spec fn small_span_value_at(s: Seq<char>, j: int) -> bool {
    let a = skip_html_space(s, j);
    let b = skip_html_space(s, a + 1);
    let c = if 0 <= b < s.len() && is_quote(s[b]) {
        b + 1
    } else {
        b
    };
    let d = digit_run_end(s, c);
    &&& 0 <= a < s.len()
    &&& s[a] == '='
    &&& 1 <= d - c <= 4
    &&& 0 <= d < s.len()
    &&& (is_quote(s[d]) || is_html_space(s[d]) || s[d] == '>')
}

/// Whether every `colspan` in the page (in any ASCII case, wherever it
/// stands) is followed by a small literal span value. A page that spans
/// a table cell over a huge number of columns makes html2text's table
/// layout overflow and panic; pages that pass this check cannot.
pub open spec fn spans_bounded(s: Seq<char>) -> bool {
    forall|i: int| #[trigger] spells_colspan_at(s, i) ==> small_span_value_at(s, i + 7)
}

fn skip_space_from(s: &Vec<char>, j: usize) -> (r: usize)
    requires
        j <= s.len(),
    ensures
        r as int == skip_html_space(s@, j as int),
        j <= r <= s.len(),
{
    let mut k = j;
    while k < s.len() && (s[k] == ' ' || s[k] == '\t' || s[k] == '\n' || s[k] == '\r' || s[k]
        == '\x0c')
        invariant
            j <= k <= s.len(),
            skip_html_space(s@, j as int) == skip_html_space(s@, k as int),
        decreases s.len() - k,
    {
        k = k + 1;
    }
    k
}

fn digits_from(s: &Vec<char>, j: usize) -> (r: usize)
    requires
        j <= s.len(),
    ensures
        r as int == digit_run_end(s@, j as int),
        j <= r <= s.len(),
{
    let mut k = j;
    while k < s.len() && '0' <= s[k] && s[k] <= '9'
        invariant
            j <= k <= s.len(),
            digit_run_end(s@, j as int) == digit_run_end(s@, k as int),
        decreases s.len() - k,
    {
        k = k + 1;
    }
    k
}

fn spells_colspan(s: &Vec<char>, i: usize, word: &Vec<char>) -> (r: bool)
    requires
        word@ == "colspan"@,
    ensures
        r == spells_colspan_at(s@, i as int),
{
    proof {
        reveal_strlit("colspan");
    }
    if i > s.len() || s.len() - i < 7 {
        return false;
    }
    let mut k: usize = 0;
    while k < 7
        invariant
            k <= 7,
            i + 7 <= s.len(),
            word@ == "colspan"@,
            word@.len() == 7,
            forall|m: int| 0 <= m < k ==> ascii_lower(#[trigger] s@[i + m]) == "colspan"@[m],
        decreases 7 - k,
    {
        if crate::text::ascii_lower_char(s[i + k]) != word[k] {
            return false;
        }
        k = k + 1;
    }
    true
}

fn small_span_value(s: &Vec<char>, j: usize) -> (r: bool)
    requires
        j <= s.len(),
    ensures
        r == small_span_value_at(s@, j as int),
{
    let a = skip_space_from(s, j);
    if a >= s.len() || s[a] != '=' {
        return false;
    }
    let b = skip_space_from(s, a + 1);
    let c = if b < s.len() && (s[b] == '"' || s[b] == '\'') {
        b + 1
    } else {
        b
    };
    let d = digits_from(s, c);
    d - c >= 1 && d - c <= 4 && d < s.len() && (s[d] == '"' || s[d] == '\'' || s[d] == ' ' || s[d]
        == '\t' || s[d] == '\n' || s[d] == '\r' || s[d] == '\x0c' || s[d] == '>')
}

/// Whether html2text may be asked to render `html`: every `colspan` in it
/// is followed by a small literal span value.
pub fn admits_page(html: &str) -> (r: bool)
    ensures
        r == spans_bounded(html@),
{
    let s = chars_of(html);
    let word = chars_of("colspan");
    let mut i: usize = 0;
    while i < s.len()
        invariant
            s@ == html@,
            word@ == "colspan"@,
            forall|k: int| 0 <= k < i && #[trigger] spells_colspan_at(s@, k) ==> small_span_value_at(s@, k + 7),
        decreases s.len() - i,
    {
        if spells_colspan(&s, i, &word) && !small_span_value(&s, i + 7) {
            return false;
        }
        i = i + 1;
    }
    assert forall|k: int| #[trigger] spells_colspan_at(s@, k) implies small_span_value_at(s@, k + 7) by {
        assert(0 <= k < i);
    }
    true
}

/// `html2text::from_read` on the bytes of `html`. Claimed: it returns, and
/// the outcome is `html_text` of the arguments, for every page whose column
/// spans are small (`spans_bounded`); which pages render, and to what, is
/// not stated. A huge `colspan` overflows html2text's table layout, which
/// then panics, so such pages are not admitted.
#[verifier::external_body]
fn html_to_text(html: &str, width: usize) -> (r: Result<String, html2text::Error>)
    requires
        spans_bounded(html@),
    ensures
        match r {
            Ok(t) => html_text(html@, width) == Some(t@),
            Err(_) => html_text(html@, width) is None,
        },
{
    html2text::from_read(html.as_bytes(), width)
}

/// The readable text of a fetched page, wrapped to `PAGE_WIDTH` columns;
/// `None` when the page cannot be rendered. The page must pass
/// `admits_page`.
pub fn page_text(html: &str) -> (r: Option<String>)
    requires
        spans_bounded(html@),
    ensures
        opt_view(r) == html_text(html@, PAGE_WIDTH),
{
    match html_to_text(html, PAGE_WIDTH) {
        Ok(t) => Some(t),
        Err(_) => None,
    }
}

/// The readable text of a fetched page, or `None` when the page cannot be
/// rendered, which includes every page that `admits_page` refuses.
pub fn readable_page_text(html: &str) -> (r: Option<String>)
    ensures
        !spans_bounded(html@) ==> r is None,
        spans_bounded(html@) ==> opt_view(r) == html_text(html@, PAGE_WIDTH),
{
    if admits_page(html) {
        page_text(html)
    } else {
        None
    }
}

/// Why a requested file may not be read.
#[derive(Debug, PartialEq, Eq)]
pub enum FileAccessError {
    /// The file lies outside the working directory.
    OutsideWorkingDirectory,
    /// The path names something other than a file.
    NotAFile,
}

impl FileAccessError {
    /// The message shown for this error.
    pub fn message(&self) -> (r: String)
        ensures
            r@ == match self {
                FileAccessError::OutsideWorkingDirectory =>
                    "requested file is outside the current working directory"@,
                FileAccessError::NotAFile => "requested path is not a file"@,
            },
    {
        match self {
            FileAccessError::OutsideWorkingDirectory =>
                "requested file is outside the current working directory".to_owned(),
            FileAccessError::NotAFile => "requested path is not a file".to_owned(),
        }
    }
}

/// The components of a path, each as its bytes.
pub open spec fn components(p: Seq<Vec<u8>>) -> Seq<Seq<u8>> {
    p.map_values(|c: Vec<u8>| c@)
}

/// Whether the path `base` is a whole-component prefix of `path`
/// (`Path::starts_with`).
pub open spec fn path_within(path: Seq<Seq<u8>>, base: Seq<Seq<u8>>) -> bool {
    base.is_prefix_of(path)
}

fn bytes_eq(a: &Vec<u8>, b: &Vec<u8>) -> (r: bool)
    ensures
        r == (a@ == b@),
{
    if a.len() != b.len() {
        return false;
    }
    let mut i: usize = 0;
    while i < a.len()
        invariant
            i <= a.len() == b.len(),
            forall|j: int| 0 <= j < i ==> a@[j] == b@[j],
        decreases a.len() - i,
    {
        if a[i] != b[i] {
            return false;
        }
        i = i + 1;
    }
    assert(a@ =~= b@);
    true
}

/// A path lies within a directory exactly when it has at least as many
/// components and agrees with the directory on each of the directory's.
proof fn lemma_within_by_components(path: Seq<Vec<u8>>, dir: Seq<Vec<u8>>)
    ensures
        path_within(components(path), components(dir)) <==> {
            &&& dir.len() <= path.len()
            &&& forall|j: int| 0 <= j < dir.len() ==> #[trigger] path[j]@ == dir[j]@
        },
{
    let p = components(path);
    let b = components(dir);
    if path_within(p, b) {
        assert forall|j: int| 0 <= j < dir.len() implies #[trigger] path[j]@ == dir[j]@ by {
            assert(p.subrange(0, b.len() as int)[j] == p[j]);
        }
    }
    if dir.len() <= path.len() && forall|j: int|
        0 <= j < dir.len() ==> #[trigger] path[j]@ == dir[j]@ {
        assert(b =~= p.subrange(0, b.len() as int));
    }
}

/// Decides whether a requested file may be read, given the components of
/// its canonical path, those of the canonical working directory, and
/// whether it is a regular file: it must lie inside the working directory,
/// and be a file.
pub fn safe_file_path_in(abs_path: &Vec<Vec<u8>>, abs_cwd: &Vec<Vec<u8>>, is_file: bool) -> (r:
    Result<(), FileAccessError>)
    ensures
        r == if !path_within(components(abs_path@), components(abs_cwd@)) {
            Err(FileAccessError::OutsideWorkingDirectory)
        } else if !is_file {
            Err::<(), FileAccessError>(FileAccessError::NotAFile)
        } else {
            Ok(())
        },
        r is Ok <==> {
            &&& is_file
            &&& abs_cwd@.len() <= abs_path@.len()
            &&& forall|j: int| 0 <= j < abs_cwd@.len() ==> #[trigger] abs_path@[j]@ == abs_cwd@[j]@
        },
{
    proof {
        lemma_within_by_components(abs_path@, abs_cwd@);
    }
    let ghost p = components(abs_path@);
    let ghost b = components(abs_cwd@);
    if abs_cwd.len() > abs_path.len() {
        return Err(FileAccessError::OutsideWorkingDirectory);
    }
    let mut i: usize = 0;
    while i < abs_cwd.len()
        invariant
            i <= abs_cwd@.len() <= abs_path@.len(),
            p == components(abs_path@),
            b == components(abs_cwd@),
            forall|j: int| 0 <= j < i ==> #[trigger] b[j] == p[j],
        decreases abs_cwd.len() - i,
    {
        if !bytes_eq(&abs_cwd[i], &abs_path[i]) {
            assert(b[i as int] != p[i as int]);
            assert(b != p.subrange(0, b.len() as int));
            return Err(FileAccessError::OutsideWorkingDirectory);
        }
        i = i + 1;
    }
    assert(b =~= p.subrange(0, b.len() as int));
    if !is_file {
        return Err(FileAccessError::NotAFile);
    }
    Ok(())
}

/// A normalised URL always carries the `http://` or `https://` scheme.
pub proof fn lemma_normalized_url_has_scheme(url: Seq<char>)
    ensures
        "http://"@.is_prefix_of(normalized_url(url)) || "https://"@.is_prefix_of(
            normalized_url(url),
        ),
{
    let t = trim(url);
    if !("http://"@.is_prefix_of(t) || "https://"@.is_prefix_of(t)) {
        assert(("https://"@ + t).subrange(0, "https://"@.len() as int) == "https://"@);
    }
}

/// Normalising a URL twice gives what normalising it once gives.
pub proof fn lemma_normalize_url_idempotent(url: Seq<char>)
    ensures
        normalized_url(normalized_url(url)) == normalized_url(url),
{
    let t = trim(url);
    crate::text::lemma_trim_idempotent(url);
    crate::text::lemma_trim_shape(url);
    lemma_normalized_url_has_scheme(url);
    if !("http://"@.is_prefix_of(t) || "https://"@.is_prefix_of(t)) {
        reveal_strlit("https://");
        let n = "https://"@ + t;
        assert(n[0] == 'h');
        if t.len() > 0 {
            assert(n.last() == t.last());
        } else {
            assert(n.last() == '/');
        }
        crate::text::lemma_trim_stable(n);
    }
}

} // verus!
