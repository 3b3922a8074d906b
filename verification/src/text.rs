//! Character-level text operations.
//!
//! Text is modelled as a sequence of Unicode scalar values (`Seq<char>`).  Every
//! executable function here works on a slice of characters and is specified by a
//! spec function on the corresponding sequence.

use vstd::prelude::*;
use vstd::slice::slice_subrange;

verus! {

broadcast use vstd::string::group_string_axioms;

/// `String::push` appends one character to the end of the string and changes
/// nothing else.
pub assume_specification[ String::push ](s: &mut String, c: char)
    ensures
        final(s)@ == old(s)@.push(c),
;

/// The characters of `s`, in order.
pub fn to_chars(s: &str) -> (chars: Vec<char>)
    ensures
        chars@ == s@,
{
    let mut chars: Vec<char> = Vec::new();
    for c in it: s.chars()
        invariant
            it.seq() == s@,
            chars@ == it.seq().take(it.index() as int),
    {
        chars.push(c);
    }
    assert(chars@ == s@.take(s@.len() as int));
    chars
}

/// The string made of the characters `chars`, in order.
pub fn from_chars(chars: &[char]) -> (s: String)
    ensures
        s@ == chars@,
{
    let mut s = String::new();
    let mut i: usize = 0;
    while i < chars.len()
        invariant
            i <= chars.len(),
            s@ == chars@.take(i as int),
        decreases chars.len() - i,
    {
        s.push(chars[i]);
        i += 1;
    }
    assert(chars@.take(chars@.len() as int) == chars@);
    s
}

/// The characters that carry the Unicode `White_Space` property.
pub open spec fn is_whitespace(c: char) -> bool {
    ||| '\u{9}' <= c <= '\u{D}'
    ||| c == ' '
    ||| c == '\u{85}'
    ||| c == '\u{A0}'
    ||| c == '\u{1680}'
    ||| '\u{2000}' <= c <= '\u{200A}'
    ||| c == '\u{2028}'
    ||| c == '\u{2029}'
    ||| c == '\u{202F}'
    ||| c == '\u{205F}'
    ||| c == '\u{3000}'
}

/// Decides [`is_whitespace`].
pub fn is_whitespace_char(c: char) -> (b: bool)
    ensures
        b == is_whitespace(c),
{
    ('\u{9}' <= c && c <= '\u{D}') || c == ' ' || c == '\u{85}' || c == '\u{A0}' || c
        == '\u{1680}' || ('\u{2000}' <= c && c <= '\u{200A}') || c == '\u{2028}' || c
        == '\u{2029}' || c == '\u{202F}' || c == '\u{205F}' || c == '\u{3000}'
}

/// Number of whitespace characters at the front of `s`.
pub open spec fn leading_whitespace(s: Seq<char>) -> nat
    decreases s.len(),
{
    if s.len() > 0 && is_whitespace(s[0]) {
        1 + leading_whitespace(s.drop_first())
    } else {
        0
    }
}

/// Number of whitespace characters at the back of `s`.
pub open spec fn trailing_whitespace(s: Seq<char>) -> nat
    decreases s.len(),
{
    if s.len() > 0 && is_whitespace(s.last()) {
        1 + trailing_whitespace(s.drop_last())
    } else {
        0
    }
}

/// `s` without its leading whitespace.
pub open spec fn trimmed_start(s: Seq<char>) -> Seq<char> {
    s.skip(leading_whitespace(s) as int)
}

/// `s` without its leading and trailing whitespace.
pub open spec fn trimmed(s: Seq<char>) -> Seq<char> {
    let t = trimmed_start(s);
    t.take(t.len() - trailing_whitespace(t))
}

/// The leading whitespace is a prefix of whitespace characters that is
/// followed, if by anything, by a character that is not whitespace.
pub proof fn lemma_leading_whitespace(s: Seq<char>)
    ensures
        leading_whitespace(s) <= s.len(),
        forall|i: int| 0 <= i < leading_whitespace(s) ==> is_whitespace(#[trigger] s[i]),
        leading_whitespace(s) < s.len() ==> !is_whitespace(s[leading_whitespace(s) as int]),
    decreases s.len(),
{
    if s.len() > 0 && is_whitespace(s[0]) {
        let rest = s.drop_first();
        lemma_leading_whitespace(rest);
        assert forall|i: int| 0 <= i < leading_whitespace(s) implies is_whitespace(
            #[trigger] s[i],
        ) by {
            if i > 0 {
                assert(s[i] == rest[i - 1]);
            }
        }
        if leading_whitespace(s) < s.len() {
            assert(s[leading_whitespace(s) as int] == rest[leading_whitespace(rest) as int]);
        }
    }
}

/// The trailing whitespace is a suffix of whitespace characters that is
/// preceded, if by anything, by a character that is not whitespace.
pub proof fn lemma_trailing_whitespace(s: Seq<char>)
    ensures
        trailing_whitespace(s) <= s.len(),
        forall|i: int|
            s.len() - trailing_whitespace(s) <= i < s.len() ==> is_whitespace(#[trigger] s[i]),
        trailing_whitespace(s) < s.len() ==> !is_whitespace(
            s[s.len() - trailing_whitespace(s) - 1],
        ),
    decreases s.len(),
{
    if s.len() > 0 && is_whitespace(s.last()) {
        let rest = s.drop_last();
        lemma_trailing_whitespace(rest);
        assert forall|i: int|
            s.len() - trailing_whitespace(s) <= i < s.len() implies is_whitespace(
            #[trigger] s[i],
        ) by {
            if i < s.len() - 1 {
                assert(s[i] == rest[i]);
            }
        }
        if trailing_whitespace(s) < s.len() {
            assert(s[s.len() - trailing_whitespace(s) - 1] == rest[rest.len()
                - trailing_whitespace(rest) - 1]);
        }
    }
}

/// A prefix of whitespace characters that stops at the end of `s` or before a
/// character that is not whitespace is the leading whitespace of `s`.
pub proof fn lemma_leading_whitespace_is(s: Seq<char>, n: int)
    requires
        0 <= n <= s.len(),
        forall|i: int| 0 <= i < n ==> is_whitespace(#[trigger] s[i]),
        n < s.len() ==> !is_whitespace(s[n]),
    ensures
        leading_whitespace(s) == n,
    decreases s.len(),
{
    if n > 0 {
        let rest = s.drop_first();
        assert(is_whitespace(s[0]));
        assert forall|i: int| 0 <= i < n - 1 implies is_whitespace(#[trigger] rest[i]) by {
            assert(rest[i] == s[i + 1]);
        }
        lemma_leading_whitespace_is(rest, n - 1);
    }
}

/// A suffix of whitespace characters that starts at the front of `s` or after a
/// character that is not whitespace is the trailing whitespace of `s`.
pub proof fn lemma_trailing_whitespace_is(s: Seq<char>, n: int)
    requires
        0 <= n <= s.len(),
        forall|i: int| s.len() - n <= i < s.len() ==> is_whitespace(#[trigger] s[i]),
        n < s.len() ==> !is_whitespace(s[s.len() - n - 1]),
    ensures
        trailing_whitespace(s) == n,
    decreases s.len(),
{
    if n > 0 {
        let rest = s.drop_last();
        assert(is_whitespace(s[s.len() - 1]));
        assert forall|i: int| rest.len() - (n - 1) <= i < rest.len() implies is_whitespace(
            #[trigger] rest[i],
        ) by {
            assert(rest[i] == s[i]);
        }
        lemma_trailing_whitespace_is(rest, n - 1);
    }
}

/// Trimming leaves a text that neither starts nor ends with whitespace, and
/// trimming it again changes nothing.
pub proof fn lemma_trimmed_is_trim(s: Seq<char>)
    ensures
        trimmed(s).len() > 0 ==> !is_whitespace(trimmed(s).first()) && !is_whitespace(
            trimmed(s).last(),
        ),
        trimmed(trimmed(s)) == trimmed(s),
{
    let t = trimmed_start(s);
    let r = trimmed(s);
    lemma_leading_whitespace(s);
    lemma_trailing_whitespace(t);
    if r.len() > 0 {
        assert(r.first() == s[leading_whitespace(s) as int]);
        assert(r.last() == t[t.len() - trailing_whitespace(t) - 1]);
        lemma_leading_whitespace_is(r, 0);
        lemma_trailing_whitespace_is(r, 0);
        assert(trimmed_start(r) == r);
    } else {
        assert(trimmed_start(r) == r);
    }
    assert(trimmed(r) == r);
}

/// The part of `s` that is left when the whitespace at both ends is removed.
pub fn trim<'a>(s: &'a [char]) -> (r: &'a [char])
    ensures
        r@ == trimmed(s@),
{
    let mut start: usize = 0;
    while start < s.len() && is_whitespace_char(s[start])
        invariant
            start <= s.len(),
            forall|i: int| 0 <= i < start ==> is_whitespace(#[trigger] s@[i]),
        decreases s.len() - start,
    {
        start += 1;
    }
    proof {
        lemma_leading_whitespace_is(s@, start as int);
    }
    let mut end: usize = s.len();
    while end > start && is_whitespace_char(s[end - 1])
        invariant
            start <= end <= s.len(),
            forall|i: int| end <= i < s.len() ==> is_whitespace(#[trigger] s@[i]),
        decreases end,
    {
        end -= 1;
    }
    proof {
        let t = s@.skip(start as int);
        assert forall|i: int| t.len() - (s.len() - end) <= i < t.len() implies is_whitespace(
            #[trigger] t[i],
        ) by {
            assert(t[i] == s@[i + start]);
        }
        if s.len() - end < t.len() {
            assert(t[t.len() - (s.len() - end) - 1] == s@[end - 1]);
        }
        lemma_trailing_whitespace_is(t, s.len() - end);
        assert(trimmed(s@) == s@.subrange(start as int, end as int));
    }
    slice_subrange(s, start, end)
}

/// Index of the first element of `s` that equals `c`, or the length of `s`
/// where none does.
pub open spec fn first_index<A>(s: Seq<A>, c: A) -> int
    decreases s.len(),
{
    if s.len() == 0 || s[0] == c {
        0
    } else {
        1 + first_index(s.drop_first(), c)
    }
}

/// [`first_index`] is in range, no earlier element is `c`, and the element at
/// it, if there is one, is `c`.
pub proof fn lemma_first_index<A>(s: Seq<A>, c: A)
    ensures
        0 <= first_index(s, c) <= s.len(),
        forall|i: int| 0 <= i < first_index(s, c) ==> #[trigger] s[i] != c,
        first_index(s, c) < s.len() ==> s[first_index(s, c)] == c,
        first_index(s, c) < s.len() <==> s.contains(c),
    decreases s.len(),
{
    if s.len() == 0 || s[0] == c {
    } else {
        let rest = s.drop_first();
        lemma_first_index(rest, c);
        assert forall|i: int| 0 <= i < first_index(s, c) implies #[trigger] s[i] != c by {
            if i > 0 {
                assert(s[i] == rest[i - 1]);
            }
        }
        if first_index(s, c) < s.len() {
            assert(s[first_index(s, c)] == rest[first_index(rest, c)]);
        }
        if s.contains(c) {
            let i = choose|i: int| 0 <= i < s.len() && s[i] == c;
            assert(rest[i - 1] == c);
        }
    }
}

/// An index before which `c` does not occur and that is the end of `s` or holds
/// `c` is the first index of `c`.
pub proof fn lemma_first_index_is<A>(s: Seq<A>, c: A, n: int)
    requires
        0 <= n <= s.len(),
        forall|i: int| 0 <= i < n ==> #[trigger] s[i] != c,
        n < s.len() ==> s[n] == c,
    ensures
        first_index(s, c) == n,
    decreases s.len(),
{
    if n > 0 {
        let rest = s.drop_first();
        assert(s[0] != c);
        assert forall|i: int| 0 <= i < n - 1 implies #[trigger] rest[i] != c by {
            assert(rest[i] == s[i + 1]);
        }
        lemma_first_index_is(rest, c, n - 1);
    }
}

/// The parts of `s` before and after the first occurrence of `c`, where `c`
/// occurs.
pub open spec fn split_at_first(s: Seq<char>, c: char) -> Option<(Seq<char>, Seq<char>)> {
    if s.contains(c) {
        Some((s.take(first_index(s, c)), s.skip(first_index(s, c) + 1)))
    } else {
        None
    }
}

/// Position of the first occurrence of `c` in `s`.
pub fn find_char(s: &[char], c: char) -> (r: Option<usize>)
    ensures
        r is Some <==> s@.contains(c),
        r matches Some(i) ==> i == first_index(s@, c) && i < s@.len() && s@[i as int] == c,
{
    let mut i: usize = 0;
    while i < s.len() && s[i] != c
        invariant
            i <= s.len(),
            forall|j: int| 0 <= j < i ==> #[trigger] s@[j] != c,
        decreases s.len() - i,
    {
        i += 1;
    }
    proof {
        lemma_first_index_is(s@, c, i as int);
        lemma_first_index(s@, c);
    }
    if i < s.len() {
        Some(i)
    } else {
        None
    }
}

/// Splits `s` around the first occurrence of `c`.
pub fn split_once<'a>(s: &'a [char], c: char) -> (r: Option<(&'a [char], &'a [char])>)
    ensures
        match r {
            Some((left, right)) => split_at_first(s@, c) == Some((left@, right@)),
            None => split_at_first(s@, c) is None,
        },
{
    let n = s.len();
    match find_char(s, c) {
        Some(i) => Some((slice_subrange(s, 0, i), slice_subrange(s, i + 1, n))),
        None => None,
    }
}

/// Whether `s` begins with the characters of `prefix`.
pub open spec fn has_prefix(s: Seq<char>, prefix: Seq<char>) -> bool {
    prefix.len() <= s.len() && s.take(prefix.len() as int) == prefix
}

/// Decides [`has_prefix`].
pub fn starts_with(s: &[char], prefix: &[char]) -> (b: bool)
    ensures
        b == has_prefix(s@, prefix@),
{
    if prefix.len() > s.len() {
        return false;
    }
    let mut i: usize = 0;
    while i < prefix.len()
        invariant
            i <= prefix.len() <= s.len(),
            forall|j: int| 0 <= j < i ==> s@[j] == prefix@[j],
        decreases prefix.len() - i,
    {
        if s[i] != prefix[i] {
            assert(s@.take(prefix.len() as int)[i as int] != prefix@[i as int]);
            return false;
        }
        i += 1;
    }
    assert(s@.take(prefix.len() as int) =~= prefix@);
    true
}

/// Whether the characters of `pattern` occur in `s`, one after the other.
pub open spec fn has_substring(s: Seq<char>, pattern: Seq<char>) -> bool {
    exists|i: int| 0 <= i <= s.len() && #[trigger] has_prefix(s.skip(i), pattern)
}

/// Decides [`has_substring`].
pub fn contains(s: &[char], pattern: &[char]) -> (b: bool)
    ensures
        b == has_substring(s@, pattern@),
{
    let mut i: usize = 0;
    while i <= s.len()
        invariant
            i <= s.len() + 1,
            forall|j: int| 0 <= j < i ==> !#[trigger] has_prefix(s@.skip(j), pattern@),
        decreases s.len() + 1 - i,
    {
        if starts_with(slice_subrange(s, i, s.len()), pattern) {
            assert(s@.subrange(i as int, s.len() as int) == s@.skip(i as int));
            return true;
        }
        assert(s@.subrange(i as int, s.len() as int) == s@.skip(i as int));
        if i == s.len() {
            return false;
        }
        i += 1;
    }
    false
}

/// Whether two texts hold the same characters.
pub fn same_text(a: &[char], b: &[char]) -> (eq: bool)
    ensures
        eq == (a@ == b@),
{
    if a.len() != b.len() {
        return false;
    }
    let eq = starts_with(a, b);
    assert(a@.take(a@.len() as int) == a@);
    eq
}

/// Number of characters at the front of `s` that are not whitespace.
pub open spec fn word_len(s: Seq<char>) -> nat
    decreases s.len(),
{
    if s.len() > 0 && !is_whitespace(s[0]) {
        1 + word_len(s.drop_first())
    } else {
        0
    }
}

/// [`word_len`] counts a prefix without whitespace that is followed, if by
/// anything, by a whitespace character.
pub proof fn lemma_word_len(s: Seq<char>)
    ensures
        word_len(s) <= s.len(),
        forall|i: int| 0 <= i < word_len(s) ==> !is_whitespace(#[trigger] s[i]),
        word_len(s) < s.len() ==> is_whitespace(s[word_len(s) as int]),
    decreases s.len(),
{
    if s.len() > 0 && !is_whitespace(s[0]) {
        let rest = s.drop_first();
        lemma_word_len(rest);
        assert forall|i: int| 0 <= i < word_len(s) implies !is_whitespace(#[trigger] s[i]) by {
            if i > 0 {
                assert(s[i] == rest[i - 1]);
            }
        }
        if word_len(s) < s.len() {
            assert(s[word_len(s) as int] == rest[word_len(rest) as int]);
        }
    }
}

/// A prefix without whitespace that stops at the end of `s` or before a
/// whitespace character is the first word of `s`.
pub proof fn lemma_word_len_is(s: Seq<char>, n: int)
    requires
        0 <= n <= s.len(),
        forall|i: int| 0 <= i < n ==> !is_whitespace(#[trigger] s[i]),
        n < s.len() ==> is_whitespace(s[n]),
    ensures
        word_len(s) == n,
    decreases s.len(),
{
    if n > 0 {
        let rest = s.drop_first();
        assert(!is_whitespace(s[0]));
        assert forall|i: int| 0 <= i < n - 1 implies !is_whitespace(#[trigger] rest[i]) by {
            assert(rest[i] == s[i + 1]);
        }
        lemma_word_len_is(rest, n - 1);
    }
}

/// The maximal runs of characters of `s` that are not whitespace, in order.
pub open spec fn words(s: Seq<char>) -> Seq<Seq<char>>
    decreases s.len(),
    via words_decreases
{
    if s.len() == 0 {
        Seq::empty()
    } else if is_whitespace(s[0]) {
        words(s.drop_first())
    } else {
        seq![s.take(word_len(s) as int)] + words(s.skip(word_len(s) as int))
    }
}

#[via_fn]
proof fn words_decreases(s: Seq<char>) {
    lemma_word_len(s);
}

/// A non-empty text without whitespace.
pub open spec fn is_word(w: Seq<char>) -> bool {
    w.len() > 0 && forall|i: int| 0 <= i < w.len() ==> !is_whitespace(#[trigger] w[i])
}

/// Every element of [`words`] is a word.
pub proof fn lemma_words_are_words(s: Seq<char>)
    ensures
        forall|k: int| 0 <= k < words(s).len() ==> is_word(#[trigger] words(s)[k]),
    decreases s.len(),
{
    if s.len() == 0 {
        assert(words(s).len() == 0);
    } else if is_whitespace(s[0]) {
        lemma_words_are_words(s.drop_first());
        assert(words(s) == words(s.drop_first()));
    } else {
        lemma_word_len(s);
        let first = s.take(word_len(s) as int);
        let rest = s.skip(word_len(s) as int);
        lemma_words_are_words(rest);
        assert(is_word(first)) by {
            assert forall|i: int| 0 <= i < first.len() implies !is_whitespace(
                #[trigger] first[i],
            ) by {
                assert(first[i] == s[i]);
            }
        }
        assert forall|k: int| 0 <= k < words(s).len() implies is_word(#[trigger] words(s)[k]) by {
            if k > 0 {
                assert(words(s)[k] == words(rest)[k - 1]);
            } else {
                assert(words(s)[0] == first);
            }
        }
    }
}

/// Splits `s` at whitespace into its words.
pub fn split_whitespace(s: &[char]) -> (r: Vec<String>)
    ensures
        r.deep_view() == words(s@),
{
    let n = s.len();
    let mut r: Vec<String> = Vec::new();
    let mut i: usize = 0;
    assert(s@.skip(0) == s@);
    while i < n
        invariant
            n == s.len(),
            i <= n,
            words(s@) == r.deep_view() + words(s@.skip(i as int)),
        decreases n - i,
    {
        let ghost rest = s@.skip(i as int);
        if is_whitespace_char(s[i]) {
            assert(rest.drop_first() == s@.skip(i + 1));
            i += 1;
        } else {
            let start = i;
            while i < n && !is_whitespace_char(s[i])
                invariant
                    n == s.len(),
                    start <= i <= n,
                    forall|j: int| start <= j < i ==> !is_whitespace(#[trigger] s@[j]),
                decreases n - i,
            {
                i += 1;
            }
            let word = from_chars(slice_subrange(s, start, i));
            proof {
                assert forall|j: int| 0 <= j < i - start implies !is_whitespace(
                    #[trigger] rest[j],
                ) by {
                    assert(rest[j] == s@[start + j]);
                }
                lemma_word_len_is(rest, i - start);
                assert(rest.take(i - start) == s@.subrange(start as int, i as int));
                assert(rest.skip(i - start) == s@.skip(i as int));
                let ghost before = r.deep_view();
                assert(r@.push(word).map_values(|w: String| w.deep_view()) =~= before.push(
                    word@,
                )) by {
                    assert(before =~= r@.map_values(|w: String| w.deep_view()));
                }
            }
            let ghost before = r.deep_view();
            r.push(word);
            assert(r.deep_view() =~= before.push(word@));
            assert(before.push(word@) + words(s@.skip(i as int)) =~= before + (seq![word@]
                + words(s@.skip(i as int))));
        }
    }
    assert(words(s@.skip(n as int)) == Seq::<Seq<char>>::empty());
    r
}

/// The pieces of `text` between its line feeds, in order.  A text without a
/// line feed is one line, and a text that ends in a line feed ends in an empty
/// line.
pub open spec fn lines(text: Seq<char>) -> Seq<Seq<char>>
    decreases text.len(),
    via lines_decreases
{
    if text.contains('\n') {
        seq![text.take(first_index(text, '\n'))] + lines(text.skip(first_index(text, '\n') + 1))
    } else {
        seq![text]
    }
}

#[via_fn]
proof fn lines_decreases(text: Seq<char>) {
    lemma_first_index(text, '\n');
}

/// The texts of `parts` put together with `separator` between each two.
pub open spec fn joined(parts: Seq<Seq<char>>, separator: char) -> Seq<char>
    decreases parts.len(),
{
    if parts.len() == 0 {
        Seq::empty()
    } else if parts.len() == 1 {
        parts[0]
    } else {
        parts[0] + seq![separator] + joined(parts.drop_first(), separator)
    }
}

/// There is at least one line, no line holds a line feed, and the lines put
/// together with line feeds between them are the text.
pub proof fn lemma_lines(text: Seq<char>)
    ensures
        lines(text).len() >= 1,
        forall|k: int| 0 <= k < lines(text).len() ==> !(#[trigger] lines(text)[k]).contains('\n'),
        joined(lines(text), '\n') == text,
    decreases text.len(),
{
    lemma_first_index(text, '\n');
    if text.contains('\n') {
        let n = first_index(text, '\n');
        let head = text.take(n);
        let rest = text.skip(n + 1);
        lemma_lines(rest);
        assert(!head.contains('\n')) by {
            if head.contains('\n') {
                let i = choose|i: int| 0 <= i < head.len() && head[i] == '\n';
                assert(text[i] == '\n');
            }
        }
        assert forall|k: int| 0 <= k < lines(text).len() implies !(#[trigger] lines(
            text,
        )[k]).contains('\n') by {
            if k > 0 {
                assert(lines(text)[k] == lines(rest)[k - 1]);
            } else {
                assert(lines(text)[0] == head);
            }
        }
        assert(lines(text).drop_first() == lines(rest));
        assert(head + seq!['\n'] + rest == text);
    } else {
        assert(lines(text) == seq![text]);
    }
}

/// The texts that the slices of `v` hold.
pub open spec fn slice_views(v: Seq<&[char]>) -> Seq<Seq<char>> {
    v.map_values(|l: &[char]| l@)
}

/// Splits `text` at its line feeds.
pub fn split_lines<'a>(text: &'a [char]) -> (r: Vec<&'a [char]>)
    ensures
        slice_views(r@) == lines(text@),
{
    let n = text.len();
    let mut r: Vec<&'a [char]> = Vec::new();
    let mut start: usize = 0;
    assert(text@.skip(0) == text@);
    loop
        invariant
            n == text.len(),
            start <= n,
            lines(text@) == slice_views(r@) + lines(text@.skip(start as int)),
        decreases n - start,
    {
        let rest = slice_subrange(text, start, n);
        assert(rest@ == text@.skip(start as int));
        let ghost before = slice_views(r@);
        match find_char(rest, '\n') {
            Some(i) => {
                let line = slice_subrange(rest, 0, i);
                r.push(line);
                proof {
                    assert(slice_views(r@) =~= before.push(line@));
                    assert(rest@.skip(i + 1) == text@.skip(start + i + 1));
                    assert(before.push(line@) + lines(rest@.skip(i + 1)) =~= before + (seq![
                        line@,
                    ] + lines(rest@.skip(i + 1))));
                }
                start = start + i + 1;
            },
            None => {
                r.push(rest);
                proof {
                    assert(slice_views(r@) =~= before.push(rest@));
                    assert(before.push(rest@) =~= before + seq![rest@]);
                }
                return r;
            },
        }
    }
}

/// `s` with every occurrence of `pattern` replaced by `with`.  Occurrences are
/// found from left to right and do not overlap; what was put in is not searched
/// again.  An empty pattern occurs nowhere.
pub open spec fn replaced(s: Seq<char>, pattern: Seq<char>, with: Seq<char>) -> Seq<char>
    decreases s.len(),
{
    if pattern.len() == 0 || s.len() == 0 {
        s
    } else if has_prefix(s, pattern) {
        with + replaced(s.skip(pattern.len() as int), pattern, with)
    } else {
        seq![s[0]] + replaced(s.drop_first(), pattern, with)
    }
}

/// A text in which the pattern does not occur is left as it is.
pub proof fn lemma_replaced_without_occurrence(
    s: Seq<char>,
    pattern: Seq<char>,
    with: Seq<char>,
)
    requires
        !has_substring(s, pattern),
    ensures
        replaced(s, pattern, with) == s,
    decreases s.len(),
{
    if pattern.len() == 0 || s.len() == 0 {
    } else {
        assert(s.skip(0) == s);
        assert(!has_prefix(s.skip(0), pattern));
        let rest = s.drop_first();
        assert forall|i: int| 0 <= i <= rest.len() implies !#[trigger] has_prefix(
            rest.skip(i),
            pattern,
        ) by {
            assert(rest.skip(i) == s.skip(i + 1));
        }
        lemma_replaced_without_occurrence(rest, pattern, with);
        assert(seq![s[0]] + rest == s);
    }
}

/// Replaces every occurrence of `pattern` in `s` by `with`.
pub fn replace(s: &[char], pattern: &[char], with: &[char]) -> (r: Vec<char>)
    ensures
        r@ == replaced(s@, pattern@, with@),
{
    let n = s.len();
    let m = pattern.len();
    let mut r: Vec<char> = Vec::new();
    let mut i: usize = 0;
    assert(s@.skip(0) == s@);
    while i < n
        invariant
            n == s.len(),
            m == pattern.len(),
            i <= n,
            replaced(s@, pattern@, with@) == r@ + replaced(s@.skip(i as int), pattern@, with@),
        decreases n - i,
    {
        let rest = slice_subrange(s, i, n);
        assert(rest@ == s@.skip(i as int));
        let ghost before = r@;
        if m > 0 && starts_with(rest, pattern) {
            r.extend_from_slice(with);
            proof {
                assert(rest@.skip(m as int) == s@.skip(i + m));
                assert(before + (with@ + replaced(rest@.skip(m as int), pattern@, with@)) =~= (
                before + with@) + replaced(rest@.skip(m as int), pattern@, with@));
            }
            i = i + m;
        } else {
            r.push(s[i]);
            proof {
                assert(rest@.drop_first() == s@.skip(i + 1));
                if m > 0 {
                    assert(before + (seq![rest@[0]] + replaced(
                        rest@.drop_first(),
                        pattern@,
                        with@,
                    )) =~= before.push(s@[i as int]) + replaced(
                        rest@.drop_first(),
                        pattern@,
                        with@,
                    ));
                } else {
                    lemma_replaced_empty_pattern(rest@, with@);
                    lemma_replaced_empty_pattern(rest@.drop_first(), with@);
                    assert(before + rest@ =~= before.push(s@[i as int]) + rest@.drop_first());
                }
            }
            i = i + 1;
        }
    }
    assert(r@ + Seq::<char>::empty() =~= r@);
    r
}

proof fn lemma_replaced_empty_pattern(s: Seq<char>, with: Seq<char>)
    ensures
        replaced(s, Seq::empty(), with) == s,
{
}

} // verus!
