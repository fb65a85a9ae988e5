//! Splitting an expression into tokens.

use vstd::prelude::*;

verus! {

/// Whether `c` separates tokens: the code points with the Unicode property
/// `White_Space`.
pub open spec fn is_whitespace(c: char) -> bool {
    let u = c as u32;
    ||| 0x09 <= u <= 0x0D
    ||| u == 0x20
    ||| u == 0x85
    ||| u == 0xA0
    ||| u == 0x1680
    ||| 0x2000 <= u <= 0x200A
    ||| u == 0x2028
    ||| u == 0x2029
    ||| u == 0x202F
    ||| u == 0x205F
    ||| u == 0x3000
}

/// Length of the longest whitespace-free prefix of `s`.
pub open spec fn word_len(s: Seq<char>) -> nat
    decreases s.len(),
{
    if s.len() == 0 || is_whitespace(s[0]) {
        0
    } else {
        1 + word_len(s.drop_first())
    }
}

/// The tokens of `s`: its maximal whitespace-free runs, from left to right.
pub open spec fn tokens_of(s: Seq<char>) -> Seq<Seq<char>>
    decreases s.len(),
    via tokens_of_decreases
{
    if s.len() == 0 {
        Seq::empty()
    } else if is_whitespace(s[0]) {
        tokens_of(s.drop_first())
    } else {
        seq![s.take(word_len(s) as int)] + tokens_of(s.skip(word_len(s) as int))
    }
}

#[via_fn]
proof fn tokens_of_decreases(s: Seq<char>) {
    if s.len() > 0 && !is_whitespace(s[0]) {
        lemma_word_len_bounds(s);
    }
}

/// The character sequences that a vector of string slices stands for.
pub open spec fn texts(tokens: Seq<&str>) -> Seq<Seq<char>> {
    Seq::new(tokens.len(), |i: int| tokens[i]@)
}

/// A word is no longer than its text, and not empty where the text starts
/// with a character that is no whitespace.
pub proof fn lemma_word_len_bounds(s: Seq<char>)
    ensures
        word_len(s) <= s.len(),
        s.len() > 0 && !is_whitespace(s[0]) ==> word_len(s) >= 1,
    decreases s.len(),
{
    if s.len() > 0 && !is_whitespace(s[0]) {
        lemma_word_len_bounds(s.drop_first());
    }
}

/// The word at the front of `s` ends at `k` when no character before `k` is
/// whitespace and the text ends at `k` or has whitespace there.
pub proof fn lemma_word_len_is(s: Seq<char>, k: int)
    requires
        0 <= k <= s.len(),
        forall|j: int| 0 <= j < k ==> !is_whitespace(#[trigger] s[j]),
        k == s.len() || is_whitespace(s[k]),
    ensures
        word_len(s) == k,
    decreases k,
{
    if k > 0 {
        let rest = s.drop_first();
        assert forall|j: int| 0 <= j < k - 1 implies !is_whitespace(#[trigger] rest[j]) by {
            assert(rest[j] == s[j + 1]);
        }
        lemma_word_len_is(rest, k - 1);
    }
}

/// Every character of the word at the front of `s` is no whitespace, and the
/// word stops at the end of the text or in front of whitespace.
pub proof fn lemma_word_len_maximal(s: Seq<char>)
    ensures
        forall|j: int| 0 <= j < word_len(s) ==> !is_whitespace(#[trigger] s[j]),
        word_len(s) == s.len() || is_whitespace(s[word_len(s) as int]),
    decreases s.len(),
{
    if s.len() > 0 && !is_whitespace(s[0]) {
        let rest = s.drop_first();
        lemma_word_len_maximal(rest);
        lemma_word_len_bounds(rest);
        assert forall|j: int| 0 <= j < word_len(s) implies !is_whitespace(#[trigger] s[j]) by {
            if j > 0 {
                assert(s[j] == rest[j - 1]);
            }
        }
        if word_len(s) < s.len() {
            assert(s[word_len(s) as int] == rest[word_len(rest) as int]);
        }
    }
}

/// A word: a text that is not empty and holds no whitespace.
pub open spec fn is_word(w: Seq<char>) -> bool {
    w.len() > 0 && forall|i: int| 0 <= i < w.len() ==> !is_whitespace(#[trigger] w[i])
}

/// The words written one after the other, with a single space between two
/// of them.
pub open spec fn joined(words: Seq<Seq<char>>) -> Seq<char>
    decreases words.len(),
{
    if words.len() == 0 {
        Seq::empty()
    } else if words.len() == 1 {
        words[0]
    } else {
        words[0] + seq![' '] + joined(words.drop_first())
    }
}

/// Every token is a word.
pub proof fn lemma_tokens_are_words(s: Seq<char>)
    ensures
        forall|i: int| 0 <= i < tokens_of(s).len() ==> is_word(#[trigger] tokens_of(s)[i]),
    decreases s.len(),
{
    if s.len() == 0 {
        assert(tokens_of(s).len() == 0);
    } else if is_whitespace(s[0]) {
        lemma_tokens_are_words(s.drop_first());
        assert(tokens_of(s) == tokens_of(s.drop_first()));
    } else {
        let n = word_len(s) as int;
        lemma_word_len_bounds(s);
        lemma_word_len_maximal(s);
        lemma_tokens_are_words(s.skip(n));
        assert(is_word(s.take(n)));
        assert forall|i: int| 0 <= i < tokens_of(s).len() implies is_word(
            #[trigger] tokens_of(s)[i],
        ) by {
            if i > 0 {
                assert(tokens_of(s)[i] == tokens_of(s.skip(n))[i - 1]);
            }
        }
    }
}

/// A text that starts with a word, followed by whitespace or by nothing, has
/// that word as its first token; the other tokens are those of what follows
/// the word.
pub proof fn lemma_tokens_of_word_then(word: Seq<char>, rest: Seq<char>)
    requires
        is_word(word),
        rest.len() == 0 || is_whitespace(rest[0]),
    ensures
        tokens_of(word + rest) == seq![word] + tokens_of(rest),
{
    let s = word + rest;
    let n = word.len() as int;
    assert forall|j: int| 0 <= j < n implies !is_whitespace(#[trigger] s[j]) by {
        assert(s[j] == word[j]);
    }
    lemma_word_len_is(s, n);
    assert(s.take(n) == word);
    assert(s.skip(n) == rest);
}

/// Splitting undoes joining: the tokens of words joined by single spaces are
/// those words.
pub proof fn lemma_tokens_of_joined(words: Seq<Seq<char>>)
    requires
        forall|i: int| 0 <= i < words.len() ==> is_word(#[trigger] words[i]),
    ensures
        tokens_of(joined(words)) == words,
    decreases words.len(),
{
    if words.len() == 0 {
    } else if words.len() == 1 {
        lemma_tokens_of_word_then(words[0], Seq::empty());
        assert(words[0] + Seq::<char>::empty() == words[0]);
        assert(seq![words[0]] + Seq::<Seq<char>>::empty() == words);
    } else {
        let others = words.drop_first();
        assert forall|i: int| 0 <= i < others.len() implies is_word(#[trigger] others[i]) by {
            assert(others[i] == words[i + 1]);
        }
        lemma_tokens_of_joined(others);
        let tail = seq![' '] + joined(others);
        assert(tail.drop_first() == joined(others));
        assert(tokens_of(tail) == others);
        lemma_tokens_of_word_then(words[0], tail);
        assert(words[0] + tail == joined(words));
        assert(seq![words[0]] + others == words);
    }
}

/// Whether `c` separates tokens.
pub fn is_separator(c: char) -> (b: bool)
    ensures
        b == is_whitespace(c),
{
    let u: u32 = c as u32;
    (0x09 <= u && u <= 0x0D) || u == 0x20 || u == 0x85 || u == 0xA0 || u == 0x1680 || (0x2000 <= u
        && u <= 0x200A) || u == 0x2028 || u == 0x2029 || u == 0x202F || u == 0x205F || u == 0x3000
}

/// The characters of `s`, for indexing in constant time.
pub(crate) fn characters(s: &str) -> (chars: Vec<char>)
    ensures
        chars@ == s@,
{
    let mut chars: Vec<char> = Vec::new();
    for c in it: s.chars()
        invariant
            it.seq() == s@,
            chars@ == it.seq().take(it.index() as int),
    {
        chars.push(c);
    }
    chars
}

/// Splits `expression` on runs of whitespace. The tokens come in the order in
/// which they stand in the text; none is empty and none holds whitespace.
pub fn tokenize<'a>(expression: &'a str) -> (tokens: Vec<&'a str>)
    ensures
        texts(tokens@) == tokens_of(expression@),
        forall|i: int| 0 <= i < tokens.len() ==> is_word(#[trigger] tokens[i]@),
{
    let chars = characters(expression);
    let n: usize = chars.len();
    // A text of plain ASCII is sliced in constant time.
    let ascii: bool = expression.is_ascii();
    let mut tokens: Vec<&'a str> = Vec::new();
    let mut i: usize = 0;
    assert(expression@.skip(0) == expression@);
    while i < n
        invariant
            i <= n,
            n == chars.len(),
            chars@ == expression@,
            ascii == expression.is_ascii(),
            texts(tokens@) + tokens_of(expression@.skip(i as int)) == tokens_of(expression@),
        decreases n - i,
    {
        let ghost rest = expression@.skip(i as int);
        if is_separator(chars[i]) {
            assert(rest.drop_first() == expression@.skip(i + 1));
            i += 1;
        } else {
            let start: usize = i;
            while i < n && !is_separator(chars[i])
                invariant
                    start <= i <= n,
                    n == chars.len(),
                    forall|k: int| start <= k < i ==> !is_whitespace(#[trigger] chars@[k]),
                decreases n - i,
            {
                i += 1;
            }
            let token = if ascii {
                expression.substring_ascii(start, i)
            } else {
                expression.substring_char(start, i)
            };
            proof {
                lemma_word_len_is(rest, i - start);
                assert(rest.take(i - start) == token@);
                assert(rest.skip(i - start) == expression@.skip(i as int));
                assert(texts(tokens@.push(token)) == texts(tokens@) + seq![token@]);
            }
            tokens.push(token);
        }
    }
    proof {
        assert(tokens_of(expression@.skip(n as int)) == Seq::<Seq<char>>::empty());
        lemma_tokens_are_words(expression@);
        assert forall|i: int| 0 <= i < tokens.len() implies is_word(#[trigger] tokens[i]@) by {
            assert(tokens[i]@ == texts(tokens@)[i]);
        }
    }
    tokens
}

} // verus!
