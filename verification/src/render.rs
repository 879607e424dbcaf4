//! Rendering of the model's Markdown-like answer for the terminal: headings,
//! labels, bullets, code and bold spans, with or without ANSI colors.
use vstd::prelude::*;

use crate::text::{
    lemma_lines_avoid, lemma_trim_end_char_shape, lemma_trim_end_shape, lemma_trim_start_shape,
    chars_of, contains_char, has_prefix, lines, lines_of, push_all, push_str, string_of, sub_vec,
    trim, trim_end, trim_end_char, trim_end_char_vec, trim_end_vec, trim_start, trim_start_vec,
    trim_vec, utf8_len, utf8_len_at_most,
};

verus! {

pub const ANSI_RESET: &'static str = "\x1b[0m";

pub const ANSI_BOLD: &'static str = "\x1b[1m";

pub const ANSI_DIM: &'static str = "\x1b[2m";

pub const ANSI_CYAN: &'static str = "\x1b[36m";

pub const ANSI_GREEN: &'static str = "\x1b[32m";

pub const ANSI_YELLOW: &'static str = "\x1b[33m";

/// The codes of `codes`, one after the other.
pub open spec fn joined(codes: Seq<&str>) -> Seq<char>
    decreases codes.len(),
{
    if codes.len() == 0 {
        Seq::empty()
    } else {
        joined(codes.drop_last()) + codes.last()@
    }
}

/// `text` wrapped in the escape codes `codes` and a reset when `color` is on,
/// `text` itself otherwise.
pub open spec fn styled(text: Seq<char>, codes: Seq<char>, color: bool) -> Seq<char> {
    if color {
        codes + text + ANSI_RESET@
    } else {
        text
    }
}

/// Wraps `text` in the concatenated escape `codes` and a reset, when `color` is on.
pub fn style(text: &str, codes: &[&str], color: bool) -> (r: String)
    ensures
        r@ == styled(text@, joined(codes@), color),
{
    let mut cv: Vec<char> = Vec::new();
    let mut i: usize = 0;
    while i < codes.len()
        invariant
            i <= codes@.len(),
            cv@ == joined(codes@.take(i as int)),
        decreases codes.len() - i,
    {
        push_str(&mut cv, codes[i]);
        assert(codes@.take(i + 1).drop_last() == codes@.take(i as int));
        i = i + 1;
    }
    assert(codes@.take(codes@.len() as int) == codes@);
    let tv = chars_of(text);
    let r = style_vec(&tv, &cv, color);
    string_of(&r)
}

/// `style` on characters, with the codes already joined.
pub fn style_vec(text: &Vec<char>, codes: &Vec<char>, color: bool) -> (r: Vec<char>)
    ensures
        r@ == styled(text@, codes@, color),
{
    if !color {
        return sub_vec(text, 0, text.len());
    }
    let mut r = sub_vec(codes, 0, codes.len());
    push_all(&mut r, text);
    push_str(&mut r, ANSI_RESET);
    r
}

/// Whether `c` opens or closes an inline span: a backtick or an asterisk.
pub open spec fn is_marker(c: char) -> bool {
    c == '`' || c == '*'
}

/// Number of leading characters of `s` that are not markers.
pub open spec fn plain_run(s: Seq<char>) -> nat
    decreases s.len(),
{
    if s.len() > 0 && !is_marker(s[0]) {
        1 + plain_run(s.drop_first())
    } else {
        0
    }
}

/// A run of text styled by the spans open around it: green inside code,
/// bold inside a bold span, unchanged otherwise.
pub open spec fn styled_segment(seg: Seq<char>, code: bool, bold: bool, color: bool) -> Seq<char> {
    if code {
        styled(seg, ANSI_GREEN@, color)
    } else if bold {
        styled(seg, ANSI_BOLD@, color)
    } else {
        seg
    }
}

/// Inline rendering of `s` with the code and bold spans `code` and `bold`
/// open: a backtick toggles code, `**` toggles bold, and each run between
/// markers (a lone `*` starts a run) is styled by the open spans.
pub open spec fn inline_from(s: Seq<char>, code: bool, bold: bool, color: bool) -> Seq<char>
    decreases s.len(),
{
    if s.len() == 0 {
        Seq::empty()
    } else if s[0] == '`' {
        inline_from(s.drop_first(), !code, bold, color)
    } else if s[0] == '*' && s.len() > 1 && s[1] == '*' {
        inline_from(s.skip(2), code, !bold, color)
    } else {
        proof {
            lemma_plain_run_bound(s.drop_first());
        }
        let n = 1 + plain_run(s.drop_first()) as int;
        styled_segment(s.take(n), code, bold, color) + inline_from(s.skip(n), code, bold, color)
    }
}

/// The inline rendering of a whole line.
pub open spec fn inline(s: Seq<char>, color: bool) -> Seq<char> {
    inline_from(s, false, false, color)
}

/// `s` with every backtick and every `**` pair removed.
pub open spec fn without_markup(s: Seq<char>) -> Seq<char>
    decreases s.len(),
{
    if s.len() == 0 {
        Seq::empty()
    } else if s[0] == '`' {
        without_markup(s.drop_first())
    } else if s[0] == '*' && s.len() > 1 && s[1] == '*' {
        without_markup(s.skip(2))
    } else {
        seq![s[0]] + without_markup(s.drop_first())
    }
}

/// A run of non-markers is at most as long as the text.
pub proof fn lemma_plain_run_bound(s: Seq<char>)
    ensures
        plain_run(s) <= s.len(),
        forall|k: int| 0 <= k < plain_run(s) ==> !is_marker(#[trigger] s[k]),
        plain_run(s) < s.len() ==> is_marker(s[plain_run(s) as int]),
    decreases s.len(),
{
    if s.len() > 0 && !is_marker(s[0]) {
        lemma_plain_run_bound(s.drop_first());
        assert forall|k: int| 0 <= k < plain_run(s) implies !is_marker(#[trigger] s[k]) by {
            if k > 0 {
                assert(s[k] == s.drop_first()[k - 1]);
            }
        }
        if plain_run(s) < s.len() {
            assert(s[plain_run(s) as int] == s.drop_first()[plain_run(s) - 1]);
        }
    }
}

proof fn lemma_without_markup_run(t: Seq<char>, m: nat)
    requires
        m <= plain_run(t),
    ensures
        without_markup(t) == t.take(m as int) + without_markup(t.skip(m as int)),
    decreases m,
{
    lemma_plain_run_bound(t);
    if m > 0 {
        assert(t.len() > 0 && !is_marker(t[0]));
        assert(plain_run(t) == 1 + plain_run(t.drop_first()));
        assert(without_markup(t) == seq![t[0]] + without_markup(t.drop_first()));
        lemma_without_markup_run(t.drop_first(), (m - 1) as nat);
        assert(t.drop_first().skip(m - 1) == t.skip(m as int));
        assert(t.take(m as int) == seq![t[0]] + t.drop_first().take(m - 1));
    } else {
        assert(t.skip(0) == t);
    }
}

/// Without color, inline rendering only drops the markup markers: every
/// backtick and every `**` pair goes, all other characters stay in order.
pub proof fn lemma_inline_without_color(s: Seq<char>, code: bool, bold: bool)
    ensures
        inline_from(s, code, bold, false) == without_markup(s),
    decreases s.len(),
{
    if s.len() == 0 {
    } else if s[0] == '`' {
        lemma_inline_without_color(s.drop_first(), !code, bold);
    } else if s[0] == '*' && s.len() > 1 && s[1] == '*' {
        lemma_inline_without_color(s.skip(2), code, !bold);
    } else {
        let t = s.drop_first();
        lemma_plain_run_bound(t);
        let m = plain_run(t);
        let n = 1 + m as int;
        lemma_inline_without_color(s.skip(n), code, bold);
        lemma_without_markup_run(t, m);
        assert(t.skip(m as int) == s.skip(n));
        assert(s.take(n) == seq![s[0]] + t.take(m as int));
    }
}

/// Text without backticks or asterisks is printed as it stands, with or
/// without color.
pub proof fn lemma_inline_plain_text(s: Seq<char>, color: bool)
    requires
        forall|i: int| 0 <= i < s.len() ==> !is_marker(#[trigger] s[i]),
    ensures
        inline(s, color) == s,
{
    if s.len() > 0 {
        let t = s.drop_first();
        lemma_plain_run_full(t);
        assert(!is_marker(s[0]));
        assert(1 + plain_run(t) == s.len());
        assert(inline_from(Seq::<char>::empty(), false, false, color) == Seq::<char>::empty());
        assert(styled_segment(s, false, false, color) == s);
        assert(s.take(s.len() as int) == s);
        assert(s.skip(s.len() as int) == Seq::<char>::empty());
        assert(s + Seq::<char>::empty() == s);
    }
}

proof fn lemma_plain_run_full(s: Seq<char>)
    requires
        forall|i: int| 0 <= i < s.len() ==> !is_marker(#[trigger] s[i]),
    ensures
        plain_run(s) == s.len(),
    decreases s.len(),
{
    if s.len() > 0 {
        assert forall|i: int| 0 <= i < s.drop_first().len() implies !is_marker(
            #[trigger] s.drop_first()[i],
        ) by {
            assert(s.drop_first()[i] == s[i + 1]);
        }
        lemma_plain_run_full(s.drop_first());
    }
}

/// Number of leading non-markers of `s[from..]`, found by scanning.
fn plain_run_end(s: &Vec<char>, from: usize) -> (j: usize)
    requires
        from <= s.len(),
    ensures
        from <= j <= s.len(),
        j - from == plain_run(s@.skip(from as int)),
{
    let mut j = from;
    assert(s@.skip(from as int) == s@.skip(j as int));
    while j < s.len() && s[j] != '`' && s[j] != '*'
        invariant
            from <= j <= s.len(),
            plain_run(s@.skip(from as int)) == (j - from) + plain_run(s@.skip(j as int)),
        decreases s.len() - j,
    {
        assert(s@.skip(j as int).drop_first() == s@.skip(j + 1));
        j = j + 1;
    }
    j
}

/// Renders inline code spans in green and bold spans in bold, dropping the
/// markers.
pub fn render_inline(text: &str, color: bool) -> (r: String)
    ensures
        r@ == inline(text@, color),
{
    let s = chars_of(text);
    let r = render_inline_vec(&s, color);
    string_of(&r)
}

/// `render_inline` on characters.
pub fn render_inline_vec(s: &Vec<char>, color: bool) -> (r: Vec<char>)
    ensures
        r@ == inline(s@, color),
{
    let mut out: Vec<char> = Vec::new();
    let mut in_code = false;
    let mut in_bold = false;
    let mut i: usize = 0;
    assert(s@.skip(0) == s@);
    while i < s.len()
        invariant
            i <= s.len(),
            out@ + inline_from(s@.skip(i as int), in_code, in_bold, color) == inline(s@, color),
        decreases s.len() - i,
    {
        let ghost rest = s@.skip(i as int);
        let ch = s[i];
        if ch == '`' {
            assert(rest.drop_first() == s@.skip(i + 1));
            in_code = !in_code;
            i = i + 1;
        } else if ch == '*' && i + 1 < s.len() && s[i + 1] == '*' {
            assert(rest.skip(2) == s@.skip(i + 2));
            in_bold = !in_bold;
            i = i + 2;
        } else {
            let j = plain_run_end(s, i + 1);
            assert(rest.drop_first() == s@.skip(i + 1));
            let seg = sub_vec(s, i, j);
            assert(seg@ == rest.take(j - i));
            assert(rest.skip(j - i) == s@.skip(j as int));
            let piece = if in_code {
                let g = chars_of(ANSI_GREEN);
                style_vec(&seg, &g, color)
            } else if in_bold {
                let b = chars_of(ANSI_BOLD);
                style_vec(&seg, &b, color)
            } else {
                seg
            };
            let ghost out0 = out@;
            push_all(&mut out, &piece);
            assert(out@ + inline_from(s@.skip(j as int), in_code, in_bold, color) == out0
                + inline_from(rest, in_code, in_bold, color));
            i = j;
        }
    }
    out
}

/// Number of leading `'#'` characters of `s`.
pub open spec fn hash_run(s: Seq<char>) -> nat
    decreases s.len(),
{
    if s.len() > 0 && s[0] == '#' {
        1 + hash_run(s.drop_first())
    } else {
        0
    }
}

/// The text of a Markdown heading line: after optional indentation, one to
/// six `'#'` and a space; the rest, trimmed, is the heading.
pub open spec fn heading(line: Seq<char>) -> Option<Seq<char>> {
    let t = trim_start(line);
    let h = hash_run(t);
    if 1 <= h <= 6 && h < t.len() && t[h as int] == ' ' {
        Some(trim(t.skip(h + 1int)))
    } else {
        None
    }
}

proof fn lemma_hash_run_of(k: nat, rest: Seq<char>)
    requires
        rest.len() == 0 || rest[0] != '#',
    ensures
        hash_run(crate::text::repeat_char('#', k) + rest) == k,
    decreases k,
{
    let s = crate::text::repeat_char('#', k) + rest;
    if k > 0 {
        assert(s[0] == '#');
        assert(s.drop_first() == crate::text::repeat_char('#', (k - 1) as nat) + rest);
        lemma_hash_run_of((k - 1) as nat, rest);
    } else {
        assert(s == rest);
    }
}

/// A line of one to six `#`, a space and a text that has no whitespace at
/// its ends is a heading of that text; with seven or more `#` it is no
/// heading.
pub proof fn lemma_heading_of_hashes(k: nat, t: Seq<char>)
    requires
        1 <= k,
        trim(t) == t,
    ensures
        k <= 6 ==> heading(crate::text::repeat_char('#', k) + seq![' '] + t) == Some(t),
        k > 6 ==> heading(crate::text::repeat_char('#', k) + seq![' '] + t) is None,
{
    let h = crate::text::repeat_char('#', k);
    let line = h + seq![' '] + t;
    assert(line == h + (seq![' '] + t));
    assert((seq![' '] + t)[0] == ' ');
    lemma_hash_run_of(k, seq![' '] + t);
    assert(line[0] == '#');
    assert(trim_start(line) == line);
    assert(line[k as int] == ' ');
    assert(line.skip(k + 1int) == t);
}

fn hash_run_end(s: &Vec<char>) -> (j: usize)
    ensures
        j <= s.len(),
        j == hash_run(s@),
{
    let mut j: usize = 0;
    assert(s@.skip(0) == s@);
    while j < s.len() && s[j] == '#'
        invariant
            j <= s.len(),
            hash_run(s@) == j + hash_run(s@.skip(j as int)),
        decreases s.len() - j,
    {
        assert(s@.skip(j as int).drop_first() == s@.skip(j + 1));
        j = j + 1;
    }
    proof {
        if j < s.len() {
            assert(s@.skip(j as int)[0] == s@[j as int]);
        }
    }
    j
}

/// The text of a heading line (one to six `'#'`, a space, the text), or
/// `None` when `line` is not a heading.
pub fn strip_heading(line: &str) -> (r: Option<String>)
    ensures
        match r {
            None => heading(line@) is None,
            Some(h) => heading(line@) == Some(h@),
        },
{
    let lv = chars_of(line);
    match strip_heading_vec(&lv) {
        None => None,
        Some(h) => Some(string_of(&h)),
    }
}

/// `strip_heading` on characters.
pub fn strip_heading_vec(line: &Vec<char>) -> (r: Option<Vec<char>>)
    ensures
        match r {
            None => heading(line@) is None,
            Some(h) => heading(line@) == Some(h@),
        },
{
    let t = trim_start_vec(line);
    let h = hash_run_end(&t);
    if 1 <= h && h <= 6 && h < t.len() && t[h] == ' ' {
        let rest = sub_vec(&t, h + 1, t.len());
        assert(rest@ == t@.skip(h + 1));
        Some(trim_vec(&rest))
    } else {
        None
    }
}

/// Whether a blank line goes before a heading appended to `out`: `out` is
/// not empty and does not already end in a blank line.
pub open spec fn needs_gap(out: Seq<char>) -> bool {
    out.len() > 0 && !(out.len() >= 2 && out[out.len() - 1] == '\n' && out[out.len() - 2] == '\n')
}

/// The separator appended to `out` before a heading.
pub open spec fn gap(out: Seq<char>) -> Seq<char> {
    if needs_gap(out) {
        seq!['\n']
    } else {
        Seq::empty()
    }
}

/// A label line: (indentation removed) it ends in `':'`, is not a bullet and
/// takes at most 120 bytes.
pub open spec fn is_label(t: Seq<char>) -> bool {
    &&& t.len() > 0
    &&& t.last() == ':'
    &&& !("- "@.is_prefix_of(t))
    &&& utf8_len(t) <= 120
}

/// A reference line: (indentation removed) it starts with `'['` and holds a `']'`.
pub open spec fn is_reference(t: Seq<char>) -> bool {
    t.len() > 0 && t[0] == '[' && t.contains(']')
}

/// One step of rendering: the state `(inside a code block, output so far)`
/// after `line`.
pub open spec fn render_line(st: (bool, Seq<char>), line: Seq<char>, color: bool) -> (
    bool,
    Seq<char>,
) {
    let (in_code, out) = st;
    let t = trim_start(line);
    if "```"@.is_prefix_of(t) {
        (!in_code, out)
    } else if in_code {
        (in_code, out + styled(line, ANSI_GREEN@, color) + seq!['\n'])
    } else if heading(line) is Some {
        (
            in_code,
            out + gap(out) + styled(heading(line)->0, ANSI_BOLD@ + ANSI_CYAN@, color) + seq!['\n'],
        )
    } else if is_label(t) {
        (
            in_code,
            out + gap(out) + styled(trim_end_char(t, ':'), ANSI_BOLD@ + ANSI_CYAN@, color) + seq![
                '\n',
            ],
        )
    } else if "- "@.is_prefix_of(t) {
        (
            in_code,
            out + styled("  • "@, ANSI_YELLOW@, color) + inline(t.skip(2), color) + seq!['\n'],
        )
    } else if is_reference(t) {
        (in_code, out + styled(inline(line, color), ANSI_DIM@, color) + seq!['\n'])
    } else {
        (in_code, out + inline(line, color) + seq!['\n'])
    }
}

/// The rendering state after the lines `ls`, from outside any code block
/// with empty output.
pub open spec fn render_lines(ls: Seq<Seq<char>>, color: bool) -> (bool, Seq<char>)
    decreases ls.len(),
{
    if ls.len() == 0 {
        (false, Seq::empty())
    } else {
        render_line(render_lines(ls.drop_last(), color), ls.last(), color)
    }
}

/// The rendering of `input`: its lines rendered in turn, trailing whitespace removed.
pub open spec fn rendered(input: Seq<char>, color: bool) -> Seq<char> {
    trim_end(render_lines(lines(input), color).1)
}

fn needs_gap_vec(out: &Vec<char>) -> (b: bool)
    ensures
        b == needs_gap(out@),
{
    let n = out.len();
    n > 0 && !(n >= 2 && out[n - 1] == '\n' && out[n - 2] == '\n')
}

fn render_line_vec(in_code: &mut bool, out: &mut Vec<char>, line: &Vec<char>, color: bool)
    ensures
        (*final(in_code), final(out)@) == render_line((*old(in_code), old(out)@), line@, color),
{
    proof {
        reveal_strlit("- ");
    }
    let t = trim_start_vec(line);
    if has_prefix(&t, "```") {
        *in_code = !*in_code;
        return ;
    }
    if *in_code {
        let g = chars_of(ANSI_GREEN);
        let piece = style_vec(line, &g, color);
        push_all(out, &piece);
        out.push('\n');
        return ;
    }
    let mut bc = chars_of(ANSI_BOLD);
    push_str(&mut bc, ANSI_CYAN);
    match strip_heading_vec(line) {
        Some(h) => {
            if needs_gap_vec(out) {
                out.push('\n');
            }
            let piece = style_vec(&h, &bc, color);
            push_all(out, &piece);
            out.push('\n');
            return ;
        },
        None => {},
    }
    let is_bullet = has_prefix(&t, "- ");
    if t.len() > 0 && t[t.len() - 1] == ':' && !is_bullet && utf8_len_at_most(&t, 120) {
        if needs_gap_vec(out) {
            out.push('\n');
        }
        let label = trim_end_char_vec(&t, ':');
        let piece = style_vec(&label, &bc, color);
        push_all(out, &piece);
        out.push('\n');
        return ;
    }
    if is_bullet {
        let bullet = chars_of("  • ");
        let y = chars_of(ANSI_YELLOW);
        let piece = style_vec(&bullet, &y, color);
        push_all(out, &piece);
        let item = sub_vec(&t, 2, t.len());
        assert(item@ == t@.skip(2));
        let body = render_inline_vec(&item, color);
        push_all(out, &body);
        out.push('\n');
        return ;
    }
    if t.len() > 0 && t[0] == '[' && contains_char(&t, ']') {
        let inner = render_inline_vec(line, color);
        let d = chars_of(ANSI_DIM);
        let piece = style_vec(&inner, &d, color);
        push_all(out, &piece);
        out.push('\n');
        return ;
    }
    let body = render_inline_vec(line, color);
    push_all(out, &body);
    out.push('\n');
}

/// Renders the model's answer for the terminal: code blocks in green,
/// headings and labels in bold cyan after a blank line, bullets as yellow
/// dots, references dimmed, inline code and bold spans styled; without
/// `color` the same layout with no escape codes.
pub fn render_markdownish(input: &str, color: bool) -> (r: String)
    ensures
        r@ == rendered(input@, color),
{
    let s = chars_of(input);
    let ls = lines_of(&s);
    let mut in_code = false;
    let mut out: Vec<char> = Vec::new();
    let mut i: usize = 0;
    while i < ls.len()
        invariant
            i <= ls@.len() == lines(s@).len(),
            forall|k: int| 0 <= k < ls@.len() ==> #[trigger] ls@[k]@ == lines(s@)[k],
            (in_code, out@) == render_lines(lines(s@).take(i as int), color),
        decreases ls.len() - i,
    {
        assert(lines(s@).take(i + 1).drop_last() == lines(s@).take(i as int));
        assert(lines(s@).take(i + 1).last() == ls@[i as int]@);
        render_line_vec(&mut in_code, &mut out, &ls[i], color);
        i = i + 1;
    }
    assert(lines(s@).take(ls.len() as int) == lines(s@));
    let trimmed = trim_end_vec(&out);
    string_of(&trimmed)
}

/// Dropping markup keeps a text free of a character it was free of.
proof fn lemma_without_markup_avoids(s: Seq<char>, c: char)
    requires
        !s.contains(c),
    ensures
        !without_markup(s).contains(c),
    decreases s.len(),
{
    if s.len() > 0 {
        if s[0] == '`' || (s[0] == '*' && s.len() > 1 && s[1] == '*') {
            let t = if s[0] == '`' {
                s.drop_first()
            } else {
                s.skip(2)
            };
            assert(!t.contains(c)) by {
                if t.contains(c) {
                    let i = choose|i: int| 0 <= i < t.len() && t[i] == c;
                    assert(s[i + s.len() - t.len()] == c);
                }
            }
            lemma_without_markup_avoids(t, c);
        } else {
            let t = s.drop_first();
            assert(!t.contains(c)) by {
                if t.contains(c) {
                    let i = choose|i: int| 0 <= i < t.len() && t[i] == c;
                    assert(s[i + 1] == c);
                }
            }
            lemma_without_markup_avoids(t, c);
            let w = seq![s[0]] + without_markup(t);
            assert(!w.contains(c)) by {
                if w.contains(c) {
                    let i = choose|i: int| 0 <= i < w.len() && w[i] == c;
                    if i > 0 {
                        assert(without_markup(t)[i - 1] == c);
                    }
                }
            }
        }
    }
}

/// A part `s.subrange(lo, hi)` of a text free of `c` is free of `c`.
proof fn lemma_subrange_avoids(s: Seq<char>, lo: int, hi: int, c: char)
    requires
        !s.contains(c),
        0 <= lo <= hi <= s.len(),
    ensures
        !s.subrange(lo, hi).contains(c),
{
    if s.subrange(lo, hi).contains(c) {
        let i = choose|i: int| 0 <= i < hi - lo && s.subrange(lo, hi)[i] == c;
        assert(s[lo + i] == c);
    }
}

/// Two texts free of `c` joined are free of `c`.
proof fn lemma_concat_avoids(a: Seq<char>, b: Seq<char>, c: char)
    requires
        !a.contains(c),
        !b.contains(c),
    ensures
        !(a + b).contains(c),
{
    if (a + b).contains(c) {
        let i = choose|i: int| 0 <= i < (a + b).len() && (a + b)[i] == c;
        if i < a.len() {
            assert(a[i] == c);
        } else {
            assert(b[i - a.len()] == c);
        }
    }
}

proof fn lemma_trim_avoids(s: Seq<char>, c: char)
    requires
        !s.contains(c),
    ensures
        !trim_start(s).contains(c),
        !trim_end(s).contains(c),
        !trim(s).contains(c),
{
    lemma_trim_start_shape(s);
    lemma_subrange_avoids(s, s.len() - trim_start(s).len(), s.len() as int, c);
    assert(s.skip(s.len() - trim_start(s).len()) == s.subrange(
        s.len() - trim_start(s).len(),
        s.len() as int,
    ));
    lemma_trim_end_shape(s);
    lemma_subrange_avoids(s, 0, trim_end(s).len() as int, c);
    let t = trim_start(s);
    lemma_trim_end_shape(t);
    lemma_subrange_avoids(t, 0, trim_end(t).len() as int, c);
}

/// One rendering step without color appends nothing holding `c` when
/// neither the output so far, the line, nor the bullet holds it.
proof fn lemma_render_line_avoids(st: (bool, Seq<char>), line: Seq<char>, c: char)
    requires
        !st.1.contains(c),
        !line.contains(c),
        !"  • "@.contains(c),
        c != '\n',
    ensures
        !render_line(st, line, false).1.contains(c),
{
    let (in_code, out) = st;
    let t = trim_start(line);
    let nl: Seq<char> = seq!['\n'];
    assert(!nl.contains(c));
    assert(!Seq::<char>::empty().contains(c));
    lemma_trim_avoids(line, c);
    lemma_without_markup_avoids(line, c);
    lemma_inline_without_color(line, false, false);
    if "```"@.is_prefix_of(t) {
    } else if in_code {
        lemma_concat_avoids(out, line, c);
        lemma_concat_avoids(out + line, nl, c);
    } else if heading(line) is Some {
        let h = hash_run(t) as int;
        lemma_subrange_avoids(t, h + 1, t.len() as int, c);
        assert(t.skip(h + 1) == t.subrange(h + 1, t.len() as int));
        lemma_trim_avoids(t.skip(h + 1), c);
        lemma_concat_avoids(out, gap(out), c);
        lemma_concat_avoids(out + gap(out), heading(line)->0, c);
        lemma_concat_avoids(out + gap(out) + heading(line)->0, nl, c);
    } else if is_label(t) {
        lemma_trim_end_char_shape(t, ':');
        lemma_subrange_avoids(t, 0, trim_end_char(t, ':').len() as int, c);
        lemma_concat_avoids(out, gap(out), c);
        lemma_concat_avoids(out + gap(out), trim_end_char(t, ':'), c);
        lemma_concat_avoids(out + gap(out) + trim_end_char(t, ':'), nl, c);
    } else if "- "@.is_prefix_of(t) {
        reveal_strlit("- ");
        lemma_subrange_avoids(t, 2, t.len() as int, c);
        assert(t.skip(2) == t.subrange(2, t.len() as int));
        lemma_without_markup_avoids(t.skip(2), c);
        lemma_inline_without_color(t.skip(2), false, false);
        lemma_concat_avoids(out, "  • "@, c);
        lemma_concat_avoids(out + "  • "@, inline(t.skip(2), false), c);
        lemma_concat_avoids(out + "  • "@ + inline(t.skip(2), false), nl, c);
    } else if is_reference(t) {
        lemma_concat_avoids(out, inline(line, false), c);
        lemma_concat_avoids(out + inline(line, false), nl, c);
    } else {
        lemma_concat_avoids(out, inline(line, false), c);
        lemma_concat_avoids(out + inline(line, false), nl, c);
    }
}

proof fn lemma_render_lines_avoid(ls: Seq<Seq<char>>, c: char)
    requires
        forall|k: int| 0 <= k < ls.len() ==> !(#[trigger] ls[k]).contains(c),
        !"  • "@.contains(c),
        c != '\n',
    ensures
        !render_lines(ls, false).1.contains(c),
    decreases ls.len(),
{
    if ls.len() > 0 {
        assert forall|k: int| 0 <= k < ls.drop_last().len() implies !(
        #[trigger] ls.drop_last()[k]).contains(c) by {
            assert(ls.drop_last()[k] == ls[k]);
        }
        lemma_render_lines_avoid(ls.drop_last(), c);
        assert(!ls[ls.len() - 1].contains(c));
        lemma_render_line_avoids(render_lines(ls.drop_last(), false), ls.last(), c);
    } else {
        assert(!Seq::<char>::empty().contains(c));
    }
}

/// Without color, rendering adds no escape codes: an answer free of the
/// escape character renders to text free of it.
pub proof fn lemma_plain_rendering_has_no_escapes(input: Seq<char>)
    requires
        !input.contains('\x1b'),
    ensures
        !rendered(input, false).contains('\x1b'),
{
    reveal_strlit("  • ");
    assert(!"  • "@.contains('\x1b')) by {
        if "  • "@.contains('\x1b') {
            let i = choose|i: int| 0 <= i < "  • "@.len() && "  • "@[i] == '\x1b';
        }
    }
    lemma_lines_avoid(input, '\x1b');
    lemma_render_lines_avoid(lines(input), '\x1b');
    lemma_trim_avoids(render_lines(lines(input), false).1, '\x1b');
}

/// Searching past a prefix free of `c` finds `c` where the rest has it.
proof fn lemma_find_after(a: Seq<char>, b: Seq<char>, c: char)
    requires
        !a.contains(c),
    ensures
        crate::text::find(a + b, c) == a.len() + crate::text::find(b, c),
    decreases a.len(),
{
    if a.len() == 0 {
        assert(a + b == b);
    } else {
        assert((a + b)[0] == a[0]);
        assert((a + b).drop_first() == a.drop_first() + b);
        assert forall|i: int| 0 <= i < a.drop_first().len() implies a.drop_first()[i] != c by {
            assert(a.drop_first()[i] == a[i + 1]);
        }
        lemma_find_after(a.drop_first(), b, c);
    }
}

/// Code blocks are copied verbatim: a line between two fences, whatever
/// its indentation or markup, is printed as it stands (in green with
/// color, without color only its trailing whitespace dropped at the end of
/// the output). The line holds no line break, does not end in a carriage
/// return and is not itself a fence.
pub proof fn lemma_code_block_verbatim(l: Seq<char>)
    requires
        !l.contains('\n'),
        l.len() == 0 || l.last() != '\r',
        !"```"@.is_prefix_of(trim_start(l)),
    ensures
        rendered("```"@ + seq!['\n'] + l + seq!['\n'] + "```"@, false) == trim_end(l),
        rendered("```"@ + seq!['\n'] + l + seq!['\n'] + "```"@, true) == ANSI_GREEN@ + l
            + ANSI_RESET@,
{
    reveal_strlit("```");
    lemma_codes_shape();
    let f: Seq<char> = "```"@;
    assert(f == seq!['`', '`', '`']);
    assert(!f.contains('\n')) by {
        assert forall|i: int| 0 <= i < f.len() implies f[i] != '\n' by {}
    }
    let g = seq!['\n'] + f;
    let rest = l + g;
    let input = f + seq!['\n'] + l + seq!['\n'] + f;
    assert(input == f + (seq!['\n'] + rest));
    lemma_find_after(f, seq!['\n'] + rest, '\n');
    assert(crate::text::find(input, '\n') == 3);
    assert(input.take(3) == f);
    assert(input.skip(4) == rest);
    assert(crate::text::strip_cr(f) == f);
    lemma_find_after(l, g, '\n');
    assert(crate::text::find(rest, '\n') == l.len());
    assert(rest.take(l.len() as int) == l);
    assert(rest.skip(l.len() as int + 1) == f);
    assert(crate::text::strip_cr(l) == l);
    assert(crate::text::find(f, '\n') == 3) by {
        lemma_find_after(f, Seq::empty(), '\n');
        assert(f + Seq::<char>::empty() == f);
    }
    assert(lines(f) == seq![f]);
    assert(lines(rest) == seq![l] + seq![f]);
    assert(lines(input) == seq![f] + lines(rest));
    let ls = seq![f, l, f];
    assert(lines(input) == ls);
    assert(trim_start(f) == f);
    assert(f.is_prefix_of(f));
    assert(ls.drop_last() == seq![f, l]);
    assert(seq![f, l].drop_last() == seq![f]);
    assert(seq![f].drop_last() == Seq::<Seq<char>>::empty());
    assert forall|color: bool| #[trigger] render_lines(ls, color) == (
        false,
        Seq::<char>::empty() + styled(l, ANSI_GREEN@, color) + seq!['\n'],
    ) by {
        assert(render_lines(Seq::<Seq<char>>::empty(), color) == (false, Seq::<char>::empty()));
        assert(seq![f].last() == f);
        assert(render_line((false, Seq::<char>::empty()), f, color) == (
            true,
            Seq::<char>::empty(),
        ));
        assert(render_lines(seq![f], color) == (true, Seq::<char>::empty()));
        assert(render_lines(seq![f, l], color) == (
            true,
            Seq::<char>::empty() + styled(l, ANSI_GREEN@, color) + seq!['\n'],
        ));
    }
    let plain = Seq::<char>::empty() + styled(l, ANSI_GREEN@, false) + seq!['\n'];
    assert(plain == l.push('\n'));
    assert(plain.drop_last() == l);
    assert(trim_end(plain) == trim_end(l));
    let colored = Seq::<char>::empty() + styled(l, ANSI_GREEN@, true) + seq!['\n'];
    let body = ANSI_GREEN@ + l + ANSI_RESET@;
    assert(colored == body.push('\n'));
    assert(colored.drop_last() == body);
    assert(body.last() == 'm');
    assert(body.len() > 0 && !crate::text::is_ws(body.last()));
    assert(trim_end(body) == body);
    assert(trim_end(colored) == body);
    assert(render_lines(lines(input), false).1 == plain);
    assert(render_lines(lines(input), true).1 == colored);
}

/// `s` with every occurrence of the reset, bold and green escape codes
/// removed, scanning from the left.
pub open spec fn strip_codes(s: Seq<char>) -> Seq<char>
    decreases s.len(),
{
    if s.len() == 0 {
        Seq::empty()
    } else if ANSI_RESET@.is_prefix_of(s) && ANSI_RESET@.len() > 0 {
        strip_codes(s.skip(ANSI_RESET@.len() as int))
    } else if ANSI_BOLD@.is_prefix_of(s) && ANSI_BOLD@.len() > 0 {
        strip_codes(s.skip(ANSI_BOLD@.len() as int))
    } else if ANSI_GREEN@.is_prefix_of(s) && ANSI_GREEN@.len() > 0 {
        strip_codes(s.skip(ANSI_GREEN@.len() as int))
    } else {
        seq![s[0]] + strip_codes(s.drop_first())
    }
}

proof fn lemma_codes_shape()
    ensures
        ANSI_RESET@ == seq!['\x1b', '[', '0', 'm'],
        ANSI_BOLD@ == seq!['\x1b', '[', '1', 'm'],
        ANSI_GREEN@ == seq!['\x1b', '[', '3', '2', 'm'],
{
    reveal_strlit("\x1b[0m");
    reveal_strlit("\x1b[1m");
    reveal_strlit("\x1b[32m");
    assert(ANSI_RESET@ =~= seq!['\x1b', '[', '0', 'm']);
    assert(ANSI_BOLD@ =~= seq!['\x1b', '[', '1', 'm']);
    assert(ANSI_GREEN@ =~= seq!['\x1b', '[', '3', '2', 'm']);
}

/// Stripping passes over text without escape characters unchanged.
proof fn lemma_strip_plain_prefix(x: Seq<char>, t: Seq<char>)
    requires
        !x.contains('\x1b'),
    ensures
        strip_codes(x + t) == x + strip_codes(t),
    decreases x.len(),
{
    lemma_codes_shape();
    if x.len() > 0 {
        assert(x[0] != '\x1b');
        assert((x + t)[0] == x[0]);
        assert(!x.drop_first().contains('\x1b')) by {
            if x.drop_first().contains('\x1b') {
                let i = choose|i: int| 0 <= i < x.drop_first().len() && x.drop_first()[i] == '\x1b';
                assert(x[i + 1] == '\x1b');
            }
        }
        assert((x + t).drop_first() == x.drop_first() + t);
        lemma_strip_plain_prefix(x.drop_first(), t);
        assert(x == seq![x[0]] + x.drop_first());
    } else {
        assert(x + t == t);
    }
}

/// Stripping drops a leading code.
proof fn lemma_strip_code_prefix(code: Seq<char>, t: Seq<char>)
    requires
        code == ANSI_RESET@ || code == ANSI_BOLD@ || code == ANSI_GREEN@,
    ensures
        strip_codes(code + t) == strip_codes(t),
{
    lemma_codes_shape();
    let s = code + t;
    assert(s.skip(code.len() as int) == t);
    if code == ANSI_RESET@ {
        assert(ANSI_RESET@.is_prefix_of(s));
    } else if code == ANSI_BOLD@ {
        assert(!ANSI_RESET@.is_prefix_of(s)) by {
            assert(s[2] == '1');
        }
        assert(ANSI_BOLD@.is_prefix_of(s));
    } else {
        assert(!ANSI_RESET@.is_prefix_of(s)) by {
            assert(s[2] == '3');
        }
        assert(!ANSI_BOLD@.is_prefix_of(s)) by {
            assert(s[2] == '3');
        }
        assert(ANSI_GREEN@.is_prefix_of(s));
    }
}

proof fn lemma_strip_inline_from(s: Seq<char>, code: bool, bold: bool)
    requires
        !s.contains('\x1b'),
    ensures
        strip_codes(inline_from(s, code, bold, true)) == inline_from(s, code, bold, false),
    decreases s.len(),
{
    if s.len() == 0 {
    } else if s[0] == '`' {
        lemma_subrange_avoids(s, 1, s.len() as int, '\x1b');
        assert(s.drop_first() == s.subrange(1, s.len() as int));
        lemma_strip_inline_from(s.drop_first(), !code, bold);
    } else if s[0] == '*' && s.len() > 1 && s[1] == '*' {
        lemma_subrange_avoids(s, 2, s.len() as int, '\x1b');
        assert(s.skip(2) == s.subrange(2, s.len() as int));
        lemma_strip_inline_from(s.skip(2), code, !bold);
    } else {
        lemma_plain_run_bound(s.drop_first());
        let n = 1 + plain_run(s.drop_first()) as int;
        let seg = s.take(n);
        let rest_s = s.skip(n);
        lemma_subrange_avoids(s, 0, n, '\x1b');
        assert(seg == s.subrange(0, n));
        lemma_subrange_avoids(s, n, s.len() as int, '\x1b');
        assert(rest_s == s.subrange(n, s.len() as int));
        lemma_strip_inline_from(rest_s, code, bold);
        let rest_colored = inline_from(rest_s, code, bold, true);
        if code || bold {
            let c = if code {
                ANSI_GREEN@
            } else {
                ANSI_BOLD@
            };
            assert(styled_segment(seg, code, bold, true) == c + seg + ANSI_RESET@);
            assert(c + seg + ANSI_RESET@ + rest_colored == c + (seg + (ANSI_RESET@
                + rest_colored)));
            lemma_strip_code_prefix(c, seg + (ANSI_RESET@ + rest_colored));
            lemma_strip_plain_prefix(seg, ANSI_RESET@ + rest_colored);
            lemma_strip_code_prefix(ANSI_RESET@, rest_colored);
        } else {
            lemma_strip_plain_prefix(seg, rest_colored);
        }
    }
}

/// Colour only adds escape codes: for text without escape characters,
/// removing the reset, bold and green codes from the coloured inline
/// rendering gives the plain one.
pub proof fn lemma_inline_color_stripped(text: Seq<char>)
    requires
        !text.contains('\x1b'),
    ensures
        strip_codes(inline(text, true)) == inline(text, false),
{
    lemma_strip_inline_from(text, false, false);
}

} // verus!
