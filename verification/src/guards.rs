//! Scans preprocessed header text for the words that name preprocessor
//! guards: on every line that carries the preprocessor-guard marker
//! comment, the space-separated words that start with `VK_` or
//! `vulkan_` are collected, in text order.

use vstd::prelude::*;
use vstd::string::StrSliceExecFns;

verus! {

/// The marker the preprocessor leaves on a guard's comment line.
pub open spec fn guard_marker() -> Seq<char> {
    "is a preprocessor guard"@
}

pub open spec fn starts_with(s: Seq<char>, p: Seq<char>) -> bool {
    p.len() <= s.len() && s.subrange(0, p.len() as int) == p
}

/// A word worth collecting: a Vulkan guard name.
pub open spec fn is_guard_word(w: Seq<char>) -> bool {
    starts_with(w, "VK_"@) || starts_with(w, "vulkan_"@)
}

pub open spec fn contains_seq(s: Seq<char>, p: Seq<char>) -> bool {
    exists|j: int|
        0 <= j && j + p.len() <= s.len() && #[trigger] s.subrange(j, j + p.len()) == p
}

/// The first position at or past `from` holding `sep`, or the length.
pub open spec fn find_char(s: Seq<char>, sep: char, from: int) -> int
    decreases s.len() - from,
{
    if from < 0 || from >= s.len() {
        s.len() as int
    } else if s[from] == sep {
        from
    } else {
        find_char(s, sep, from + 1)
    }
}

/// A line with its trailing carriage return removed, as `str::lines`
/// does.
pub open spec fn strip_cr(l: Seq<char>) -> Seq<char> {
    if l.len() > 0 && l.last() == '\r' {
        l.drop_last()
    } else {
        l
    }
}

/// The guard words of one line's space-separated words, in order.
pub open spec fn words_of(l: Seq<char>) -> Seq<Seq<char>>
    decreases l.len(),
{
    let j = find_char(l, ' ', 0);
    if j < 0 || j >= l.len() {
        if is_guard_word(l) {
            seq![l]
        } else {
            Seq::empty()
        }
    } else {
        (if is_guard_word(l.subrange(0, j)) {
            seq![l.subrange(0, j)]
        } else {
            Seq::empty()
        }) + words_of(l.skip(j + 1))
    }
}

/// The guard words a line contributes: none unless it carries the
/// marker.
pub open spec fn line_words(l: Seq<char>) -> Seq<Seq<char>> {
    if contains_seq(l, guard_marker()) {
        words_of(l)
    } else {
        Seq::empty()
    }
}

/// The guard words of a whole preprocessed text, line by line.
pub open spec fn guard_words(s: Seq<char>) -> Seq<Seq<char>>
    decreases s.len(),
{
    if s.len() == 0 {
        Seq::empty()
    } else {
        let j = find_char(s, '\n', 0);
        if j < 0 || j >= s.len() {
            line_words(strip_cr(s))
        } else {
            line_words(strip_cr(s.subrange(0, j))) + guard_words(s.skip(j + 1))
        }
    }
}

fn find_char_exec(l: &str, sep: char) -> (r: usize)
    ensures
        r as int == find_char(l@, sep, 0),
        r <= l@.len(),
{
    let n = l.unicode_len();
    let mut i: usize = 0;
    while i < n
        invariant
            i <= n,
            n == l@.len(),
            find_char(l@, sep, 0) == find_char(l@, sep, i as int),
        decreases n - i,
    {
        if l.get_char(i) == sep {
            return i;
        }
        i += 1;
    }
    n
}

fn match_at_exec(l: &str, at: usize, pat: &str) -> (r: bool)
    requires
        at + pat@.len() <= l@.len(),
    ensures
        r == (l@.subrange(at as int, at as int + pat@.len() as int) == pat@),
{
    let n = l.unicode_len();
    let m = pat.unicode_len();
    let mut q: usize = 0;
    while q < m
        invariant
            q <= m,
            n == l@.len(),
            m == pat@.len(),
            at + m <= n,
            forall|t: int| 0 <= t < q ==> l@[at + t] == pat@[t],
        decreases m - q,
    {
        if l.get_char(at + q) != pat.get_char(q) {
            assert(l@.subrange(at as int, at as int + m as int)[q as int] != pat@[q as int]);
            return false;
        }
        q += 1;
    }
    assert(l@.subrange(at as int, at as int + m as int) =~= pat@);
    true
}

fn starts_with_exec(l: &str, pat: &str) -> (r: bool)
    ensures
        r == starts_with(l@, pat@),
{
    let n = l.unicode_len();
    let m = pat.unicode_len();
    if m > n {
        return false;
    }
    match_at_exec(l, 0, pat)
}

fn contains_exec(l: &str, pat: &str) -> (r: bool)
    ensures
        r == contains_seq(l@, pat@),
{
    let n = l.unicode_len();
    let m = pat.unicode_len();
    if m > n {
        assert(!contains_seq(l@, pat@));
        return false;
    }
    if m == 0 {
        assert(l@.subrange(0, 0 + pat@.len() as int) =~= pat@);
        assert(contains_seq(l@, pat@));
        return true;
    }
    let mut j: usize = 0;
    while j <= n - m
        invariant
            1 <= m <= n,
            n == l@.len(),
            m == pat@.len(),
            j <= n - m + 1,
            forall|p: int| 0 <= p < j ==> #[trigger] l@.subrange(p, p + pat@.len()) != pat@,
        decreases n - m + 1 - j,
    {
        if match_at_exec(l, j, pat) {
            assert(contains_seq(l@, pat@));
            return true;
        }
        j += 1;
    }
    assert forall|p: int| !(0 <= p && p + pat@.len() <= l@.len() && #[trigger] l@.subrange(
        p,
        p + pat@.len(),
    ) == pat@) by {
        if 0 <= p && p + pat@.len() <= l@.len() {
            assert(p < j);
        }
    }
    false
}

fn is_guard_word_exec(w: &str) -> (r: bool)
    ensures
        r == is_guard_word(w@),
{
    if starts_with_exec(w, "VK_") {
        return true;
    }
    starts_with_exec(w, "vulkan_")
}

fn strip_cr_exec<'a>(l: &'a str) -> (r: &'a str)
    ensures
        r@ == strip_cr(l@),
{
    let n = l.unicode_len();
    if n > 0 && l.get_char(n - 1) == '\r' {
        let r = l.substring_char(0, n - 1);
        assert(r@ =~= l@.drop_last());
        r
    } else {
        l
    }
}

fn words_of_exec(l: &str) -> (r: Vec<String>)
    ensures
        r.deep_view() == words_of(l@),
    decreases l@.len(),
{
    let n = l.unicode_len();
    let j = find_char_exec(l, ' ');
    if j >= n {
        let mut out: Vec<String> = Vec::new();
        if is_guard_word_exec(l) {
            out.push(l.to_owned());
            assert(out.deep_view() =~~= seq![l@]);
        } else {
            assert(out.deep_view() =~~= Seq::<Seq<char>>::empty());
        }
        out
    } else {
        let w = l.substring_char(0, j);
        let rest = l.substring_char(j + 1, n);
        assert(rest@ =~= l@.skip(j as int + 1));
        let mut out: Vec<String> = Vec::new();
        if is_guard_word_exec(w) {
            out.push(w.to_owned());
            assert(out.deep_view() =~~= seq![l@.subrange(0, j as int)]);
        } else {
            assert(out.deep_view() =~~= Seq::<Seq<char>>::empty());
        }
        let ghost head = out.deep_view();
        let mut tail = words_of_exec(rest);
        let ghost tail_dv = tail.deep_view();
        out.append(&mut tail);
        assert(out.deep_view() =~~= head + tail_dv);
        out
    }
}

/// Collects, line by line, the `VK_`- and `vulkan_`-prefixed words of
/// every preprocessed line that carries the preprocessor-guard marker.
pub fn preprocess_guards(pre: &str) -> (r: Vec<String>)
    ensures
        r.deep_view() == guard_words(pre@),
    decreases pre@.len(),
{
    let n = pre.unicode_len();
    if n == 0 {
        let out: Vec<String> = Vec::new();
        assert(out.deep_view() =~~= Seq::<Seq<char>>::empty());
        return out;
    }
    let j = find_char_exec(pre, '\n');
    if j >= n {
        let line = strip_cr_exec(pre);
        if contains_exec(line, "is a preprocessor guard") {
            words_of_exec(line)
        } else {
            let out: Vec<String> = Vec::new();
            assert(out.deep_view() =~~= Seq::<Seq<char>>::empty());
            out
        }
    } else {
        let raw = pre.substring_char(0, j);
        assert(raw@ =~= pre@.subrange(0, j as int));
        let line = strip_cr_exec(raw);
        let mut head: Vec<String> = if contains_exec(line, "is a preprocessor guard") {
            words_of_exec(line)
        } else {
            let out: Vec<String> = Vec::new();
            assert(out.deep_view() =~~= Seq::<Seq<char>>::empty());
            out
        };
        let ghost head_dv = head.deep_view();
        let rest = pre.substring_char(j + 1, n);
        assert(rest@ =~= pre@.skip(j as int + 1));
        let mut tail = preprocess_guards(rest);
        let ghost tail_dv = tail.deep_view();
        head.append(&mut tail);
        assert(head.deep_view() =~~= head_dv + tail_dv);
        head
    }
}

} // verus!
