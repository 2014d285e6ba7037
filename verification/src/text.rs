//! Character sequences: the mathematical vocabulary in which the line
//! format is stated, and the executable scanning that goes with it.
//!
//! All text is modelled as `Seq<char>`, the view of `str` and `String`.
//! Executable code works on `&[char]`, so every scan is linear.

use vstd::prelude::*;
use vstd::slice::slice_subrange;

verus! {

/// Whether `c` separates tokens: the Unicode `White_Space` code points.
pub open spec fn is_space(c: char) -> bool {
    ||| ('\u{9}' <= c && c <= '\u{d}')
    ||| c == ' '
    ||| c == '\u{85}'
    ||| c == '\u{a0}'
    ||| c == '\u{1680}'
    ||| ('\u{2000}' <= c && c <= '\u{200a}')
    ||| c == '\u{2028}'
    ||| c == '\u{2029}'
    ||| c == '\u{202f}'
    ||| c == '\u{205f}'
    ||| c == '\u{3000}'
}

/// Index of the first element of `s` that satisfies `p`, or `s.len()` if
/// none does.
pub open spec fn first_match(s: Seq<char>, p: spec_fn(char) -> bool) -> nat
    decreases s.len(),
{
    if s.len() == 0 || p(s[0]) {
        0
    } else {
        1 + first_match(s.drop_first(), p)
    }
}

/// The test for being the character `c`.
pub open spec fn equal_to(c: char) -> spec_fn(char) -> bool {
    |x: char| x == c
}

/// The test for being white space.
pub open spec fn blank() -> spec_fn(char) -> bool {
    |x: char| is_space(x)
}

/// The test for not being white space.
pub open spec fn inked() -> spec_fn(char) -> bool {
    |x: char| !is_space(x)
}

/// Index of the first occurrence of `c` in `s`, or `s.len()` if `c` does
/// not occur.
pub open spec fn position(s: Seq<char>, c: char) -> nat {
    first_match(s, equal_to(c))
}

/// Index of the first white-space character of `s`, or `s.len()`.
pub open spec fn first_space(s: Seq<char>) -> nat {
    first_match(s, blank())
}

/// Index of the first character of `s` that is not white space, or
/// `s.len()`.
pub open spec fn first_word(s: Seq<char>) -> nat {
    first_match(s, inked())
}

/// The pieces of `s` between occurrences of `c`. There is always at least
/// one piece; pieces may be empty.
pub open spec fn split(s: Seq<char>, c: char) -> Seq<Seq<char>>
    decreases s.len(),
{
    let n = position(s, c);
    if n >= s.len() {
        seq![s]
    } else {
        seq![s.take(n as int)] + split(s.skip(n as int + 1), c)
    }
}

/// The maximal runs of characters of `s` that hold no white space, in
/// order. No token is empty.
pub open spec fn tokens(s: Seq<char>) -> Seq<Seq<char>>
    decreases s.len(),
    via tokens_decreases
{
    let a = first_word(s);
    if a >= s.len() {
        seq![]
    } else {
        let t = s.skip(a as int);
        let n = first_space(t);
        seq![t.take(n as int)] + tokens(t.skip(n as int))
    }
}

#[via_fn]
proof fn tokens_decreases(s: Seq<char>) {
    let a = first_word(s);
    if a < s.len() {
        let t = s.skip(a as int);
        lemma_first_match(s, inked());
        lemma_first_match(t, blank());
    }
}

/// What `first_match` finds: nothing before it satisfies `p`, and the
/// element at it does, unless it is the length.
pub proof fn lemma_first_match(s: Seq<char>, p: spec_fn(char) -> bool)
    ensures
        first_match(s, p) <= s.len(),
        forall|j: int| 0 <= j < first_match(s, p) ==> !p(#[trigger] s[j]),
        first_match(s, p) < s.len() ==> p(s[first_match(s, p) as int]),
    decreases s.len(),
{
    if s.len() == 0 || p(s[0]) {
    } else {
        let t = s.drop_first();
        lemma_first_match(t, p);
        assert forall|j: int| 0 <= j < first_match(s, p) implies !p(#[trigger] s[j]) by {
            if j > 0 {
                assert(s[j] == t[j - 1]);
            }
        }
    }
}

/// `first_match` is the only index with the properties of
/// `lemma_first_match`.
pub proof fn lemma_first_match_is(s: Seq<char>, p: spec_fn(char) -> bool, m: int)
    requires
        0 <= m <= s.len(),
        forall|j: int| 0 <= j < m ==> !p(#[trigger] s[j]),
        m < s.len() ==> p(s[m]),
    ensures
        first_match(s, p) == m,
    decreases s.len(),
{
    if s.len() == 0 || p(s[0]) {
        if m > 0 {
            assert(!p(s[0]));
        }
    } else {
        let t = s.drop_first();
        assert forall|j: int| 0 <= j < m - 1 implies !p(#[trigger] t[j]) by {
            assert(t[j] == s[j + 1]);
        }
        lemma_first_match_is(t, p, m - 1);
    }
}

/// Whether `c` is white space.
pub fn space(c: char) -> (r: bool)
    ensures
        r == is_space(c),
{
    ('\u{9}' <= c && c <= '\u{d}') || c == ' ' || c == '\u{85}' || c == '\u{a0}' || c
        == '\u{1680}' || ('\u{2000}' <= c && c <= '\u{200a}') || c == '\u{2028}' || c
        == '\u{2029}' || c == '\u{202f}' || c == '\u{205f}' || c == '\u{3000}'
}

/// Index of the first `c` in `chars` at or after `from`, or the length.
pub fn find(chars: &[char], from: usize, c: char) -> (at: usize)
    requires
        from <= chars@.len(),
    ensures
        at == from + position(chars@.skip(from as int), c),
        from <= at <= chars@.len(),
{
    let mut i: usize = from;
    while i < chars.len() && chars[i] != c
        invariant
            from <= i <= chars@.len(),
            forall|j: int| from <= j < i ==> chars@[j] != c,
        decreases chars@.len() - i,
    {
        i += 1;
    }
    proof {
        lemma_first_match_is(chars@.skip(from as int), equal_to(c), i - from);
    }
    i
}

/// Index of the first white-space character at or after `from`, or the
/// length.
pub fn find_space(chars: &[char], from: usize) -> (at: usize)
    requires
        from <= chars@.len(),
    ensures
        at == from + first_space(chars@.skip(from as int)),
        from <= at <= chars@.len(),
{
    let mut i: usize = from;
    while i < chars.len() && !space(chars[i])
        invariant
            from <= i <= chars@.len(),
            forall|j: int| from <= j < i ==> !is_space(chars@[j]),
        decreases chars@.len() - i,
    {
        i += 1;
    }
    proof {
        lemma_first_match_is(chars@.skip(from as int), blank(), i - from);
    }
    i
}

/// Index of the first character at or after `from` that is not white
/// space, or the length.
pub fn find_word(chars: &[char], from: usize) -> (at: usize)
    requires
        from <= chars@.len(),
    ensures
        at == from + first_word(chars@.skip(from as int)),
        from <= at <= chars@.len(),
{
    let mut i: usize = from;
    while i < chars.len() && space(chars[i])
        invariant
            from <= i <= chars@.len(),
            forall|j: int| from <= j < i ==> is_space(chars@[j]),
        decreases chars@.len() - i,
    {
        i += 1;
    }
    proof {
        lemma_first_match_is(chars@.skip(from as int), inked(), i - from);
    }
    i
}

/// The pieces of `chars` between occurrences of `c`, each as the pair of
/// the index where it starts and the index where it ends.
pub fn cut(chars: &[char], c: char) -> (out: Vec<(usize, usize)>)
    ensures
        out@.len() == split(chars@, c).len(),
        forall|k: int|
            0 <= k < out@.len() ==> {
                &&& (#[trigger] out@[k]).0 <= out@[k].1 <= chars@.len()
                &&& chars@.subrange(out@[k].0 as int, out@[k].1 as int) == split(chars@, c)[k]
            },
{
    let mut out: Vec<(usize, usize)> = Vec::new();
    let mut from: usize = 0;
    let ghost mut done: Seq<Seq<char>> = Seq::empty();
    assert(chars@.skip(0) == chars@);
    loop
        invariant_except_break
            from <= chars@.len(),
            split(chars@, c) == done + split(chars@.skip(from as int), c),
        invariant
            out@.len() == done.len(),
            forall|k: int|
                0 <= k < out@.len() ==> {
                    &&& (#[trigger] out@[k]).0 <= out@[k].1 <= chars@.len()
                    &&& chars@.subrange(out@[k].0 as int, out@[k].1 as int) == done[k]
                },
        ensures
            split(chars@, c) == done,
        decreases chars@.len() - from,
    {
        let at: usize = find(chars, from, c);
        proof {
            let t = chars@.skip(from as int);
            assert(t.take(at - from) == chars@.subrange(from as int, at as int));
            if at == chars@.len() {
                assert(t == chars@.subrange(from as int, at as int));
            } else {
                assert(t.skip(at - from + 1) == chars@.skip(at + 1));
            }
            done = done.push(chars@.subrange(from as int, at as int));
        }
        out.push((from, at));
        if at == chars.len() {
            break ;
        }
        from = at + 1;
    }
    out
}

/// The characters of `s`, in order.
pub fn to_chars(s: &str) -> (chars: Vec<char>)
    ensures
        chars@ == s@,
{
    broadcast use vstd::string::group_string_axioms;

    let mut chars: Vec<char> = Vec::new();
    for c in it: s.chars()
        invariant
            it.seq() == s@,
            chars@ == s@.take(it.index()),
    {
        chars.push(c);
    }
    chars
}

/// `String::push`: the string afterwards is the string before with `c`
/// appended.
#[verifier::external_body]
fn push_char(s: &mut String, c: char)
    ensures
        final(s)@ == old(s)@.push(c),
{
    s.push(c)
}

/// The string made of `chars`.
pub fn to_string(chars: &[char]) -> (s: String)
    ensures
        s@ == chars@,
{
    let mut s = String::new();
    let mut i: usize = 0;
    while i < chars.len()
        invariant
            i <= chars@.len(),
            s@ == chars@.take(i as int),
        decreases chars@.len() - i,
    {
        push_char(&mut s, chars[i]);
        i += 1;
    }
    s
}

/// The tokens of `chars`, as strings.
pub fn words(chars: &[char]) -> (out: Vec<String>)
    ensures
        out.deep_view() == tokens(chars@),
{
    let mut out: Vec<String> = Vec::new();
    let mut i: usize = find_word(chars, 0);
    proof {
        lemma_tokens_skip_spaces(chars@, 0);
        assert(chars@.skip(0) == chars@);
        assert(out.deep_view() == Seq::<Seq<char>>::empty());
    }
    while i < chars.len()
        invariant
            i <= chars@.len(),
            i < chars@.len() ==> !is_space(chars@[i as int]),
            tokens(chars@) == out.deep_view() + tokens(chars@.skip(i as int)),
        decreases chars@.len() - i,
    {
        let end = find_space(chars, i);
        let next = find_word(chars, end);
        proof {
            lemma_tokens_word(chars@, i as int);
            lemma_tokens_skip_spaces(chars@, end as int);
        }
        let word = to_string(slice_subrange(chars, i, end));
        let ghost before = out.deep_view();
        out.push(word);
        assert(out.deep_view() == before.push(word@));
        i = next;
    }
    out
}

/// Tokens do not see leading white space.
pub proof fn lemma_tokens_skip_spaces(s: Seq<char>, i: int)
    requires
        0 <= i <= s.len(),
    ensures
        i + first_word(s.skip(i)) <= s.len(),
        tokens(s.skip(i)) == tokens(s.skip(i + first_word(s.skip(i)))),
        i + first_word(s.skip(i)) < s.len() ==> !is_space(s[i + first_word(s.skip(i))]),
{
    let t = s.skip(i);
    let a = first_word(t);
    lemma_first_match(t, inked());
    let u = t.skip(a as int);
    assert(u == s.skip(i + a));
    if a < t.len() {
        lemma_first_match_is(u, inked(), 0);
        assert(u.skip(0) == u);
    } else {
        lemma_first_match_is(u, inked(), 0);
    }
}

/// The first token of text that starts with a word is that word, and the
/// other tokens are those of what follows it.
pub proof fn lemma_tokens_word(s: Seq<char>, i: int)
    requires
        0 <= i < s.len(),
        !is_space(s[i]),
    ensures
        i < i + first_space(s.skip(i)) <= s.len(),
        tokens(s.skip(i)) == seq![s.subrange(i, i + first_space(s.skip(i)))] + tokens(
            s.skip(i + first_space(s.skip(i))),
        ),
{
    let t = s.skip(i);
    let n = first_space(t);
    lemma_first_match(t, blank());
    lemma_first_match_is(t, inked(), 0);
    assert(t.skip(0) == t);
    assert(t.take(n as int) == s.subrange(i, i + n));
    assert(t.skip(n as int) == s.skip(i + n));
}

} // verus!
