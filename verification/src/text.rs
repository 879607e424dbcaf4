//! Character-level string primitives shared by the rest of the library.
//!
//! Every string is modelled as its sequence of `char`s (`Seq<char>`); the
//! executable helpers work on `Vec<char>` and are proved against the spec
//! functions below, which follow the documented behaviour of the `str`
//! methods of the same name.
use vstd::prelude::*;

verus! {

/// `String::push` appends one character to the end of the string.
pub assume_specification[ String::push ](s: &mut String, ch: char)
    ensures
        final(s)@ == old(s)@.push(ch),
;

/// Unicode `White_Space`, the set that `char::is_whitespace` accepts.
pub open spec fn is_ws(c: char) -> bool {
    ||| c == ' '
    ||| ('\t' <= c && c <= '\r')
    ||| c == '\u{85}'
    ||| c == '\u{a0}'
    ||| c == '\u{1680}'
    ||| ('\u{2000}' <= c && c <= '\u{200a}')
    ||| c == '\u{2028}'
    ||| c == '\u{2029}'
    ||| c == '\u{202f}'
    ||| c == '\u{205f}'
    ||| c == '\u{3000}'
}

/// `s` with leading whitespace removed (`str::trim_start`).
pub open spec fn trim_start(s: Seq<char>) -> Seq<char>
    decreases s.len(),
{
    if s.len() > 0 && is_ws(s[0]) {
        trim_start(s.drop_first())
    } else {
        s
    }
}

/// `s` with trailing whitespace removed (`str::trim_end`).
pub open spec fn trim_end(s: Seq<char>) -> Seq<char>
    decreases s.len(),
{
    if s.len() > 0 && is_ws(s.last()) {
        trim_end(s.drop_last())
    } else {
        s
    }
}

/// `s` with whitespace removed at both ends (`str::trim`).
pub open spec fn trim(s: Seq<char>) -> Seq<char> {
    trim_end(trim_start(s))
}

/// `s` with every leading `c` removed (`str::trim_start_matches` with a char).
pub open spec fn trim_start_char(s: Seq<char>, c: char) -> Seq<char>
    decreases s.len(),
{
    if s.len() > 0 && s[0] == c {
        trim_start_char(s.drop_first(), c)
    } else {
        s
    }
}

/// `s` with every trailing `c` removed (`str::trim_end_matches` with a char).
pub open spec fn trim_end_char(s: Seq<char>, c: char) -> Seq<char>
    decreases s.len(),
{
    if s.len() > 0 && s.last() == c {
        trim_end_char(s.drop_last(), c)
    } else {
        s
    }
}

/// `s` with every `c` removed at both ends (`str::trim_matches` with a char).
pub open spec fn trim_char(s: Seq<char>, c: char) -> Seq<char> {
    trim_end_char(trim_start_char(s, c), c)
}

/// Index of the first `c` in `s`, or `s.len()` when `s` holds no `c`.
pub open spec fn find(s: Seq<char>, c: char) -> int
    decreases s.len(),
{
    if s.len() == 0 {
        0
    } else if s[0] == c {
        0
    } else {
        1 + find(s.drop_first(), c)
    }
}

/// The part of `s` before its first `c` (all of `s` when there is none),
/// which is what `s.split(c).next()` yields.
pub open spec fn before_char(s: Seq<char>, c: char) -> Seq<char> {
    s.take(find(s, c))
}

/// `str::split_once` with a char: the parts before and after the first `c`.
pub open spec fn split_once(s: Seq<char>, c: char) -> Option<(Seq<char>, Seq<char>)> {
    if find(s, c) < s.len() {
        Some((s.take(find(s, c)), s.skip(find(s, c) + 1)))
    } else {
        None
    }
}

/// `line` without one trailing carriage return.
pub open spec fn strip_cr(line: Seq<char>) -> Seq<char> {
    if line.len() > 0 && line.last() == '\r' {
        line.drop_last()
    } else {
        line
    }
}

/// The lines of `s` as `str::lines` yields them: split after each `'\n'`,
/// the `'\n'` and a `'\r'` before it dropped, and no empty line after a
/// final `'\n'`.
pub open spec fn lines(s: Seq<char>) -> Seq<Seq<char>>
    decreases s.len(),
{
    if s.len() == 0 {
        Seq::empty()
    } else if find(s, '\n') < s.len() {
        proof {
            lemma_find_bounds(s, '\n');
        }
        seq![strip_cr(s.take(find(s, '\n')))] + lines(s.skip(find(s, '\n') + 1))
    } else {
        seq![s]
    }
}

/// Number of bytes of the UTF-8 encoding of `c`.
pub open spec fn utf8_width(c: char) -> nat {
    if (c as u32) < 0x80 {
        1
    } else if (c as u32) < 0x800 {
        2
    } else if (c as u32) < 0x10000 {
        3
    } else {
        4
    }
}

/// Number of bytes of the UTF-8 encoding of `s`, which is what `str::len` counts.
pub open spec fn utf8_len(s: Seq<char>) -> nat
    decreases s.len(),
{
    if s.len() == 0 {
        0
    } else {
        utf8_len(s.drop_last()) + utf8_width(s.last())
    }
}

/// ASCII lowercase of one char (`char::to_ascii_lowercase`).
pub open spec fn ascii_lower(c: char) -> char {
    if 'A' <= c && c <= 'Z' {
        ((c as u32) + 32) as char
    } else {
        c
    }
}

/// `str::to_ascii_lowercase`.
pub open spec fn ascii_lowercase(s: Seq<char>) -> Seq<char> {
    s.map_values(|c: char| ascii_lower(c))
}

/// Whether every character of `s` is ASCII.
pub open spec fn all_ascii(s: Seq<char>) -> bool {
    forall|i: int| 0 <= i < s.len() ==> (#[trigger] s[i] as u32) < 128
}

/// `n` copies of `c`.
pub open spec fn repeat_char(c: char, n: nat) -> Seq<char> {
    Seq::new(n, |i: int| c)
}

/// Whether `c` is Unicode whitespace (`char::is_whitespace`).
pub fn is_whitespace(c: char) -> (b: bool)
    ensures
        b == is_ws(c),
{
    c == ' ' || ('\t' <= c && c <= '\r') || c == '\u{85}' || c == '\u{a0}' || c == '\u{1680}'
        || ('\u{2000}' <= c && c <= '\u{200a}') || c == '\u{2028}' || c == '\u{2029}' || c
        == '\u{202f}' || c == '\u{205f}' || c == '\u{3000}'
}

/// The characters of `s`.
pub fn chars_of(s: &str) -> (v: Vec<char>)
    ensures
        v@ == s@,
{
    let mut v: Vec<char> = Vec::new();
    for c in it: s.chars()
        invariant
            v@ == it.seq().take(it.index() as int),
    {
        v.push(c);
    }
    v
}

/// The string made of the characters `v`.
pub fn string_of(v: &Vec<char>) -> (s: String)
    ensures
        s@ == v@,
{
    let mut s = String::new();
    let mut i: usize = 0;
    while i < v.len()
        invariant
            i <= v.len(),
            s@ == v@.take(i as int),
        decreases v.len() - i,
    {
        s.push(v[i]);
        i = i + 1;
        assert(s@ == v@.take(i as int));
    }
    s
}

/// Appends the characters of `t` to `v`.
pub fn push_all(v: &mut Vec<char>, t: &Vec<char>)
    ensures
        final(v)@ == old(v)@ + t@,
{
    let mut i: usize = 0;
    while i < t.len()
        invariant
            i <= t.len(),
            v@ == old(v)@ + t@.take(i as int),
        decreases t.len() - i,
    {
        v.push(t[i]);
        i = i + 1;
        assert(v@ == old(v)@ + t@.take(i as int));
    }
    assert(t@.take(t.len() as int) == t@);
}

/// Appends the characters of `t` to `v`.
pub fn push_str(v: &mut Vec<char>, t: &str)
    ensures
        final(v)@ == old(v)@ + t@,
{
    let tv = chars_of(t);
    push_all(v, &tv);
}

/// The characters `s[lo..hi]`.
pub fn sub_vec(s: &Vec<char>, lo: usize, hi: usize) -> (r: Vec<char>)
    requires
        lo <= hi <= s.len(),
    ensures
        r@ == s@.subrange(lo as int, hi as int),
{
    let mut r: Vec<char> = Vec::new();
    let mut i: usize = lo;
    while i < hi
        invariant
            lo <= i <= hi <= s.len(),
            r@ == s@.subrange(lo as int, i as int),
        decreases hi - i,
    {
        r.push(s[i]);
        i = i + 1;
        assert(r@ == s@.subrange(lo as int, i as int));
    }
    r
}

/// Whether `s` and `t` hold the same characters.
pub fn chars_eq(s: &Vec<char>, t: &Vec<char>) -> (b: bool)
    ensures
        b == (s@ == t@),
{
    if s.len() != t.len() {
        return false;
    }
    let mut i: usize = 0;
    while i < s.len()
        invariant
            i <= s.len() == t.len(),
            s@.take(i as int) == t@.take(i as int),
        decreases s.len() - i,
    {
        if s[i] != t[i] {
            assert(s@[i as int] != t@[i as int]);
            return false;
        }
        assert(s@.take(i + 1) == s@.take(i as int).push(s@[i as int]));
        assert(t@.take(i + 1) == t@.take(i as int).push(t@[i as int]));
        i = i + 1;
    }
    assert(s@.take(s.len() as int) == s@);
    assert(t@.take(t.len() as int) == t@);
    true
}

/// Whether `s` holds the same characters as the string `t`.
pub fn chars_eq_str(s: &Vec<char>, t: &str) -> (b: bool)
    ensures
        b == (s@ == t@),
{
    let tv = chars_of(t);
    chars_eq(s, &tv)
}

/// Whether `p` is a prefix of `s` (`str::starts_with`).
pub fn has_prefix(s: &Vec<char>, p: &str) -> (b: bool)
    ensures
        b == p@.is_prefix_of(s@),
{
    let pv = chars_of(p);
    if pv.len() > s.len() {
        return false;
    }
    let head = sub_vec(s, 0, pv.len());
    chars_eq(&head, &pv)
}

/// Whether `p` is a suffix of `s` (`str::ends_with`).
pub fn has_suffix(s: &Vec<char>, p: &str) -> (b: bool)
    ensures
        b == p@.is_suffix_of(s@),
{
    let pv = chars_of(p);
    if pv.len() > s.len() {
        return false;
    }
    let tail = sub_vec(s, s.len() - pv.len(), s.len());
    chars_eq(&tail, &pv)
}

/// Whether `s` contains the character `c`.
pub fn contains_char(s: &Vec<char>, c: char) -> (b: bool)
    ensures
        b == s@.contains(c),
{
    let i = find_char(s, c);
    proof {
        lemma_find_bounds(s@, c);
    }
    i < s.len()
}

/// Facts about `find`: it lies in `0..=len`, marks the first `c`, and
/// equals `len` exactly when `c` does not occur.
pub proof fn lemma_find_bounds(s: Seq<char>, c: char)
    ensures
        0 <= find(s, c) <= s.len(),
        find(s, c) < s.len() ==> s[find(s, c)] == c,
        forall|j: int| 0 <= j < find(s, c) ==> s[j] != c,
        s.contains(c) <==> find(s, c) < s.len(),
    decreases s.len(),
{
    if s.len() > 0 && s[0] != c {
        lemma_find_bounds(s.drop_first(), c);
        assert forall|j: int| 0 <= j < find(s, c) implies s[j] != c by {
            if j > 0 {
                assert(s[j] == s.drop_first()[j - 1]);
            }
        }
        if s.contains(c) {
            let k = choose|k: int| 0 <= k < s.len() && s[k] == c;
            assert(s.drop_first()[k - 1] == c);
        }
        if find(s, c) < s.len() {
            assert(s[find(s, c)] == s.drop_first()[find(s, c) - 1]);
        }
    }
}

/// Index of the first `c` in `s`, or `s.len()` when there is none.
pub fn find_char(s: &Vec<char>, c: char) -> (i: usize)
    ensures
        i == find(s@, c),
        i <= s.len(),
{
    let mut i: usize = 0;
    assert(s@.skip(0) == s@);
    while i < s.len() && s[i] != c
        invariant
            i <= s.len(),
            find(s@, c) == i + find(s@.skip(i as int), c),
        decreases s.len() - i,
    {
        assert(s@.skip(i as int).drop_first() == s@.skip(i + 1));
        i = i + 1;
    }
    i
}

/// Index where the trailing whitespace of `s` starts: `trim_end(s) == s[..j]`.
pub fn trim_end_index(s: &Vec<char>) -> (j: usize)
    ensures
        j <= s.len(),
        trim_end(s@) == s@.take(j as int),
{
    let mut j: usize = s.len();
    assert(s@.take(j as int) == s@);
    while j > 0 && is_whitespace(s[j - 1])
        invariant
            j <= s.len(),
            trim_end(s@) == trim_end(s@.take(j as int)),
        decreases j,
    {
        assert(s@.take(j as int).drop_last() == s@.take(j - 1));
        j = j - 1;
    }
    j
}

/// Index where the leading whitespace of `s` ends: `trim_start(s) == s[i..]`.
pub fn trim_start_index(s: &Vec<char>) -> (i: usize)
    ensures
        i <= s.len(),
        trim_start(s@) == s@.skip(i as int),
{
    let mut i: usize = 0;
    assert(s@.skip(0) == s@);
    while i < s.len() && is_whitespace(s[i])
        invariant
            i <= s.len(),
            trim_start(s@) == trim_start(s@.skip(i as int)),
        decreases s.len() - i,
    {
        assert(s@.skip(i as int).drop_first() == s@.skip(i + 1));
        i = i + 1;
    }
    i
}

/// `s` without leading whitespace.
pub fn trim_start_vec(s: &Vec<char>) -> (r: Vec<char>)
    ensures
        r@ == trim_start(s@),
{
    let i = trim_start_index(s);
    sub_vec(s, i, s.len())
}

/// `s` without trailing whitespace.
pub fn trim_end_vec(s: &Vec<char>) -> (r: Vec<char>)
    ensures
        r@ == trim_end(s@),
{
    let j = trim_end_index(s);
    sub_vec(s, 0, j)
}

/// `s` without whitespace at either end.
pub fn trim_vec(s: &Vec<char>) -> (r: Vec<char>)
    ensures
        r@ == trim(s@),
{
    let t = trim_start_vec(s);
    trim_end_vec(&t)
}

/// `s` without leading copies of `c`.
pub fn trim_start_char_vec(s: &Vec<char>, c: char) -> (r: Vec<char>)
    ensures
        r@ == trim_start_char(s@, c),
{
    let mut i: usize = 0;
    assert(s@.skip(0) == s@);
    while i < s.len() && s[i] == c
        invariant
            i <= s.len(),
            trim_start_char(s@, c) == trim_start_char(s@.skip(i as int), c),
        decreases s.len() - i,
    {
        assert(s@.skip(i as int).drop_first() == s@.skip(i + 1));
        i = i + 1;
    }
    sub_vec(s, i, s.len())
}

/// `s` without trailing copies of `c`.
pub fn trim_end_char_vec(s: &Vec<char>, c: char) -> (r: Vec<char>)
    ensures
        r@ == trim_end_char(s@, c),
{
    let mut j: usize = s.len();
    assert(s@.take(j as int) == s@);
    while j > 0 && s[j - 1] == c
        invariant
            j <= s.len(),
            trim_end_char(s@, c) == trim_end_char(s@.take(j as int), c),
        decreases j,
    {
        assert(s@.take(j as int).drop_last() == s@.take(j - 1));
        j = j - 1;
    }
    sub_vec(s, 0, j)
}

/// `s` without copies of `c` at either end.
pub fn trim_char_vec(s: &Vec<char>, c: char) -> (r: Vec<char>)
    ensures
        r@ == trim_char(s@, c),
{
    let t = trim_start_char_vec(s, c);
    trim_end_char_vec(&t, c)
}

/// `str::split_once` with a char.
pub fn split_once_vec(s: &Vec<char>, c: char) -> (r: Option<(Vec<char>, Vec<char>)>)
    ensures
        match r {
            None => split_once(s@, c) is None,
            Some((a, b)) => split_once(s@, c) == Some((a@, b@)),
        },
{
    let i = find_char(s, c);
    if i < s.len() {
        let a = sub_vec(s, 0, i);
        let b = sub_vec(s, i + 1, s.len());
        assert(s@.skip(i + 1) == s@.subrange(i + 1, s.len() as int));
        Some((a, b))
    } else {
        None
    }
}

/// The lines of `s` (`str::lines`).
pub fn lines_of(s: &Vec<char>) -> (r: Vec<Vec<char>>)
    ensures
        r@.len() == lines(s@).len(),
        forall|k: int| 0 <= k < r@.len() ==> #[trigger] r@[k]@ == lines(s@)[k],
{
    let mut r: Vec<Vec<char>> = Vec::new();
    let mut rest = sub_vec(s, 0, s.len());
    assert(rest@ == s@);
    while rest.len() > 0
        invariant
            forall|k: int| 0 <= k < r@.len() ==> #[trigger] r@[k]@ == lines(s@)[k],
            r@.len() + lines(rest@).len() == lines(s@).len(),
            forall|k: int|
                0 <= k < lines(rest@).len() ==> lines(rest@)[k] == #[trigger] lines(s@)[k
                    + r@.len()],
        decreases rest.len(),
    {
        let i = find_char(&rest, '\n');
        let ghost r0 = r@;
        let ghost rest0 = rest@;
        if i < rest.len() {
            let mut line = sub_vec(&rest, 0, i);
            if line.len() > 0 && line[line.len() - 1] == '\r' {
                line.pop();
                assert(line@ == rest@.take(i as int).drop_last());
            }
            let next = sub_vec(&rest, i + 1, rest.len());
            assert(next@ == rest@.skip(i + 1));
            assert(lines(rest0) == seq![line@] + lines(next@));
            assert(lines(rest0)[0] == line@);
            assert(lines(rest0)[0] == lines(s@)[0 + r0.len() as int]);
            r.push(line);
            rest = next;
            assert forall|k: int| 0 <= k < r@.len() implies #[trigger] r@[k]@ == lines(s@)[k] by {
                if k < r0.len() {
                    assert(r@[k] == r0[k]);
                }
            }
            assert forall|k: int| 0 <= k < lines(rest@).len() implies lines(rest@)[k]
                == #[trigger] lines(s@)[k + r@.len()] by {
                assert(lines(rest@)[k] == lines(rest0)[k + 1]);
                assert(lines(rest0)[k + 1] == lines(s@)[(k + 1) + r0.len()]);
            }
        } else {
            assert(lines(rest0) == seq![rest0]);
            assert(lines(rest0)[0] == rest0);
            assert(lines(rest0)[0] == lines(s@)[0 + r0.len() as int]);
            r.push(rest);
            rest = Vec::new();
            assert(lines(rest@) == Seq::<Seq<char>>::empty());
            assert forall|k: int| 0 <= k < r@.len() implies #[trigger] r@[k]@ == lines(s@)[k] by {
                if k < r0.len() {
                    assert(r@[k] == r0[k]);
                }
            }
        }
    }
    r
}

/// Number of UTF-8 bytes of `c`.
pub fn char_utf8_width(c: char) -> (n: usize)
    ensures
        n == utf8_width(c),
{
    let u = c as u32;
    if u < 0x80 {
        1
    } else if u < 0x800 {
        2
    } else if u < 0x10000 {
        3
    } else {
        4
    }
}

/// Whether the UTF-8 encoding of `s` is at most `limit` bytes long.
pub fn utf8_len_at_most(s: &Vec<char>, limit: usize) -> (b: bool)
    ensures
        b == (utf8_len(s@) <= limit),
{
    let mut total: usize = 0;
    let mut i: usize = 0;
    while i < s.len()
        invariant
            i <= s.len(),
            total == utf8_len(s@.take(i as int)),
            total <= limit,
        decreases s.len() - i,
    {
        let w = char_utf8_width(s[i]);
        assert(s@.take(i + 1).drop_last() == s@.take(i as int));
        if w > limit - total {
            proof {
                lemma_utf8_len_prefix(s@, i + 1);
            }
            return false;
        }
        total = total + w;
        i = i + 1;
    }
    assert(s@.take(s.len() as int) == s@);
    true
}

/// The byte length of a prefix never exceeds that of the whole.
pub proof fn lemma_utf8_len_prefix(s: Seq<char>, k: int)
    requires
        0 <= k <= s.len(),
    ensures
        utf8_len(s.take(k)) <= utf8_len(s),
    decreases s.len(),
{
    if k < s.len() {
        assert(s.drop_last().take(k) == s.take(k));
        lemma_utf8_len_prefix(s.drop_last(), k);
    } else {
        assert(s.take(k) == s);
    }
}

/// `str::to_ascii_lowercase`.
pub fn ascii_lowercase_vec(s: &Vec<char>) -> (r: Vec<char>)
    ensures
        r@ == ascii_lowercase(s@),
{
    let mut r: Vec<char> = Vec::new();
    let mut i: usize = 0;
    while i < s.len()
        invariant
            i <= s.len(),
            r@ == ascii_lowercase(s@.take(i as int)),
        decreases s.len() - i,
    {
        let c = s[i];
        let l = if 'A' <= c && c <= 'Z' {
            let u = (c as u32) + 32;
            assert(u <= 0x7f);
            char_from_ascii(u)
        } else {
            c
        };
        r.push(l);
        assert(s@.take(i + 1) == s@.take(i as int).push(c));
        i = i + 1;
    }
    assert(s@.take(s.len() as int) == s@);
    r
}

/// ASCII lowercase of one char (`char::to_ascii_lowercase`).
pub fn ascii_lower_char(c: char) -> (r: char)
    ensures
        r == ascii_lower(c),
{
    if 'A' <= c && c <= 'Z' {
        char_from_ascii((c as u32) + 32)
    } else {
        c
    }
}

fn char_from_ascii(u: u32) -> (c: char)
    requires
        u <= 0x7f,
    ensures
        c == u as char,
{
    let b = u as u8;
    b as char
}

/// `trim_start` drops a prefix, and what it leaves starts with a
/// non-whitespace character.
pub proof fn lemma_trim_start_shape(s: Seq<char>)
    ensures
        trim_start(s).len() <= s.len(),
        trim_start(s) == s.skip(s.len() - trim_start(s).len()),
        trim_start(s).len() > 0 ==> !is_ws(trim_start(s)[0]),
    decreases s.len(),
{
    if s.len() > 0 && is_ws(s[0]) {
        lemma_trim_start_shape(s.drop_first());
        assert(s.drop_first().skip(s.drop_first().len() - trim_start(s).len()) == s.skip(
            s.len() - trim_start(s).len(),
        ));
    } else {
        assert(s.skip(0) == s);
    }
}

/// `trim_end` drops a suffix, and what it leaves ends with a
/// non-whitespace character.
pub proof fn lemma_trim_end_shape(s: Seq<char>)
    ensures
        trim_end(s).len() <= s.len(),
        trim_end(s) == s.take(trim_end(s).len() as int),
        trim_end(s).len() > 0 ==> !is_ws(trim_end(s).last()),
    decreases s.len(),
{
    if s.len() > 0 && is_ws(s.last()) {
        lemma_trim_end_shape(s.drop_last());
        assert(s.drop_last().take(trim_end(s).len() as int) == s.take(trim_end(s).len() as int));
    } else {
        assert(s.take(s.len() as int) == s);
    }
}

/// `trim_end_char` drops a suffix.
pub proof fn lemma_trim_end_char_shape(s: Seq<char>, c: char)
    ensures
        trim_end_char(s, c).len() <= s.len(),
        trim_end_char(s, c) == s.take(trim_end_char(s, c).len() as int),
    decreases s.len(),
{
    if s.len() > 0 && s.last() == c {
        lemma_trim_end_char_shape(s.drop_last(), c);
        assert(s.drop_last().take(trim_end_char(s, c).len() as int) == s.take(
            trim_end_char(s, c).len() as int,
        ));
    } else {
        assert(s.take(s.len() as int) == s);
    }
}

/// A trimmed text starts and ends with non-whitespace characters.
pub proof fn lemma_trim_shape(s: Seq<char>)
    ensures
        trim(s).len() > 0 ==> !is_ws(trim(s)[0]) && !is_ws(trim(s).last()),
{
    lemma_trim_start_shape(s);
    lemma_trim_end_shape(trim_start(s));
    if trim(s).len() > 0 {
        assert(trim(s)[0] == trim_start(s)[0]);
    }
}

/// Trimming leaves alone a text that starts and ends with non-whitespace.
pub proof fn lemma_trim_stable(s: Seq<char>)
    requires
        s.len() > 0 ==> !is_ws(s[0]) && !is_ws(s.last()),
    ensures
        trim(s) == s,
{
}

/// Trimming twice is trimming once.
pub proof fn lemma_trim_idempotent(s: Seq<char>)
    ensures
        trim(trim(s)) == trim(s),
{
    lemma_trim_shape(s);
    lemma_trim_stable(trim(s));
}

/// Each line of `s` is free of a character that `s` is free of.
pub proof fn lemma_lines_avoid(s: Seq<char>, c: char)
    requires
        !s.contains(c),
    ensures
        forall|k: int| 0 <= k < lines(s).len() ==> !(#[trigger] lines(s)[k]).contains(c),
    decreases s.len(),
{
    if s.len() > 0 && find(s, '\n') < s.len() {
        lemma_find_bounds(s, '\n');
        let f = find(s, '\n');
        let first = strip_cr(s.take(f));
        let rest = s.skip(f + 1);
        assert(!rest.contains(c)) by {
            if rest.contains(c) {
                let i = choose|i: int| 0 <= i < rest.len() && rest[i] == c;
                assert(s[i + f + 1] == c);
            }
        }
        assert(!first.contains(c)) by {
            if first.contains(c) {
                let i = choose|i: int| 0 <= i < first.len() && first[i] == c;
                assert(s[i] == c);
            }
        }
        lemma_lines_avoid(rest, c);
        assert forall|k: int| 0 <= k < lines(s).len() implies !(#[trigger] lines(s)[k]).contains(
            c,
        ) by {
            if k > 0 {
                assert(lines(s)[k] == lines(rest)[k - 1]);
            }
        }
    }
}

/// Trimming keeps a text ASCII.
pub proof fn lemma_trim_ascii(s: Seq<char>)
    requires
        all_ascii(s),
    ensures
        all_ascii(trim(s)),
{
    lemma_trim_start_shape(s);
    let t = trim_start(s);
    assert forall|i: int| 0 <= i < t.len() implies (#[trigger] t[i] as u32) < 128 by {
        assert(t[i] == s[i + s.len() - t.len()]);
    }
    lemma_trim_end_shape(t);
    let u = trim_end(t);
    assert forall|i: int| 0 <= i < u.len() implies (#[trigger] u[i] as u32) < 128 by {
        assert(u[i] == t[i]);
    }
}

} // verus!
