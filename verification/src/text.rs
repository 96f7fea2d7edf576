//! Text as a sequence of characters, and its division into words.

use vstd::prelude::*;

verus! {

/// Whether `c` is a white space character: one of the characters that Unicode
/// gives the property `White_Space`.
pub open spec fn spec_is_whitespace(c: char) -> bool {
    ||| '\u{9}' <= c <= '\u{d}'
    ||| c == ' '
    ||| c == '\u{85}'
    ||| c == '\u{a0}'
    ||| c == '\u{1680}'
    ||| '\u{2000}' <= c <= '\u{200a}'
    ||| c == '\u{2028}'
    ||| c == '\u{2029}'
    ||| c == '\u{202f}'
    ||| c == '\u{205f}'
    ||| c == '\u{3000}'
}

/// The number of characters at the start of `text` up to the first white
/// space, or up to the end where there is none.
pub open spec fn word_len(text: Seq<char>) -> nat
    decreases text.len(),
{
    if text.len() == 0 || spec_is_whitespace(text[0]) {
        0
    } else {
        1 + word_len(text.drop_first())
    }
}

/// The words of `text`, in order: the longest runs of characters that are not
/// white space. No word is empty.
pub open spec fn words(text: Seq<char>) -> Seq<Seq<char>>
    decreases text.len(),
{
    if text.len() == 0 {
        Seq::empty()
    } else if spec_is_whitespace(text[0]) {
        words(text.drop_first())
    } else {
        proof {
            lemma_word_len(text);
        }
        let n = word_len(text) as int;
        seq![text.take(n)] + words(text.skip(n))
    }
}

/// The character sequences that a list of words stands for.
pub open spec fn word_views(tokens: Seq<Vec<char>>) -> Seq<Seq<char>> {
    tokens.map_values(|token: Vec<char>| token@)
}

/// A run of characters without white space is no longer than the text, and
/// ends at the end of the text or before a white space.
pub proof fn lemma_word_len(text: Seq<char>)
    ensures
        word_len(text) <= text.len(),
        text.len() > 0 && !spec_is_whitespace(text[0]) ==> word_len(text) > 0,
        forall|i: int| 0 <= i < word_len(text) ==> !spec_is_whitespace(#[trigger] text[i]),
        word_len(text) < text.len() ==> spec_is_whitespace(text[word_len(text) as int]),
    decreases text.len(),
{
    if text.len() > 0 && !spec_is_whitespace(text[0]) {
        let rest = text.drop_first();
        lemma_word_len(rest);
        assert forall|i: int| 0 <= i < word_len(text) implies !spec_is_whitespace(
            #[trigger] text[i],
        ) by {
            if i > 0 {
                assert(text[i] == rest[i - 1]);
            }
        }
        if word_len(text) < text.len() {
            assert(text[word_len(text) as int] == rest[word_len(rest) as int]);
        }
    }
}

/// No word is empty, and no word holds a white space.
pub proof fn lemma_words(text: Seq<char>)
    ensures
        forall|k: int|
            0 <= k < words(text).len() ==> (#[trigger] words(text)[k]).len() > 0,
        forall|k: int, i: int|
            0 <= k < words(text).len() && 0 <= i < words(text)[k].len() ==> !spec_is_whitespace(
                #[trigger] words(text)[k][i],
            ),
    decreases text.len(),
{
    if text.len() == 0 {
        assert(words(text).len() == 0);
    } else if spec_is_whitespace(text[0]) {
        lemma_words(text.drop_first());
        assert(words(text) == words(text.drop_first()));
    } else {
        lemma_word_len(text);
        let n: int = word_len(text) as int;
        let rest = words(text.skip(n));
        lemma_words(text.skip(n));
        assert(words(text) == seq![text.take(n)] + rest);
        assert forall|k: int| 0 <= k < words(text).len() implies (#[trigger] words(text)[k]).len()
            > 0 by {
            if k > 0 {
                assert(words(text)[k] == rest[k - 1]);
            }
        }
        assert forall|k: int, i: int|
            0 <= k < words(text).len() && 0 <= i < words(text)[k].len() implies !spec_is_whitespace(
            #[trigger] words(text)[k][i],
        ) by {
            if k > 0 {
                assert(words(text)[k] == rest[k - 1]);
            } else {
                assert(words(text)[0][i] == text[i]);
            }
        }
    }
}

/// Whether `c` is a white space character.
pub fn is_whitespace(c: char) -> (blank: bool)
    ensures
        blank == spec_is_whitespace(c),
{
    ('\u{9}' <= c && c <= '\u{d}') || c == ' ' || c == '\u{85}' || c == '\u{a0}' || c
        == '\u{1680}' || ('\u{2000}' <= c && c <= '\u{200a}') || c == '\u{2028}' || c
        == '\u{2029}' || c == '\u{202f}' || c == '\u{205f}' || c == '\u{3000}'
}

/// The characters of `s`, in order.
pub fn chars_of(s: &str) -> (letters: Vec<char>)
    ensures
        letters@ == s@,
{
    let mut letters: Vec<char> = Vec::new();
    for c in it: s.chars()
        invariant
            it.seq() == s@,
            letters@ == s@.take(it.index() as int),
    {
        letters.push(c);
    }
    letters
}

/// The words of `letters`, in order.
pub fn split_whitespace(letters: &Vec<char>) -> (tokens: Vec<Vec<char>>)
    ensures
        word_views(tokens@) == words(letters@),
{
    let mut tokens: Vec<Vec<char>> = Vec::new();
    let mut i: usize = 0;
    assert(letters@.skip(0) == letters@);
    assert(word_views(tokens@) + words(letters@) == words(letters@));
    while i < letters.len()
        invariant
            i <= letters@.len(),
            words(letters@) == word_views(tokens@) + words(letters@.skip(i as int)),
        decreases letters@.len() - i,
    {
        if is_whitespace(letters[i]) {
            assert(letters@.skip(i as int).drop_first() == letters@.skip(i + 1));
            i = i + 1;
        } else {
            let start: usize = i;
            let ghost rest = letters@.skip(start as int);
            let mut word: Vec<char> = Vec::new();
            while i < letters.len() && !is_whitespace(letters[i])
                invariant
                    start <= i <= letters@.len(),
                    word@ == letters@.subrange(start as int, i as int),
                    word_len(letters@.skip(start as int)) == (i - start) + word_len(
                        letters@.skip(i as int),
                    ),
                decreases letters@.len() - i,
            {
                assert(letters@.skip(i as int).drop_first() == letters@.skip(i + 1));
                assert(letters@.subrange(start as int, i as int).push(letters@[i as int])
                    == letters@.subrange(start as int, i + 1));
                word.push(letters[i]);
                i = i + 1;
            }
            proof {
                let n: int = word_len(rest) as int;
                assert(n == i - start);
                assert(rest.take(n) == word@);
                assert(rest.skip(n) == letters@.skip(i as int));
                assert(word_views(tokens@.push(word)) == word_views(tokens@) + seq![word@]);
            }
            tokens.push(word);
        }
    }
    tokens
}

} // verus!
