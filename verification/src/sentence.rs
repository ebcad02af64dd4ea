//! Lines made of words with spaces between them.

use vstd::prelude::*;

use crate::text::{
    is_space, leading_spaces, leading_word, lemma_leading, lemma_leading_spaces_are,
    lemma_leading_word_is, trim_end, trimmed, words,
};

verus! {

/// `n` spaces.
pub open spec fn blanks(n: int) -> Seq<char> {
    Seq::new(n as nat, |i: int| ' ')
}

/// Whether a text is one word.
pub open spec fn is_word(s: Seq<char>) -> bool {
    s.len() > 0 && forall|i: int| 0 <= i < s.len() ==> !is_space(#[trigger] s[i])
}

/// A word and the number of spaces in front of it.
pub struct Spaced {
    pub blanks: int,
    pub word: Seq<char>,
}

/// The text of words with the spaces in front of them.
pub open spec fn spread(list: Seq<Spaced>) -> Seq<char>
    decreases list.len(),
{
    if list.len() == 0 {
        Seq::empty()
    } else {
        blanks(list[0].blanks) + list[0].word + spread(list.drop_first())
    }
}

/// The words alone.
pub open spec fn bare(list: Seq<Spaced>) -> Seq<Seq<char>> {
    Seq::new(list.len(), |i: int| list[i].word)
}

/// Whether the words are words, and every one but the first has a space in front of it.
pub open spec fn well_spaced(list: Seq<Spaced>) -> bool {
    forall|i: int|
        0 <= i < list.len() ==> is_word((#[trigger] list[i]).word) && list[i].blanks >= if i == 0 {
            0int
        } else {
            1
        }
}

/// Whether a text starts with white space, or is empty.
pub open spec fn opens_blank(s: Seq<char>) -> bool {
    s.len() == 0 || is_space(s[0])
}

/// The first word of a text, behind spaces and in front of white space, is split off.
pub proof fn lemma_first_word(n: int, word: Seq<char>, rest: Seq<char>)
    requires
        n >= 0,
        is_word(word),
        opens_blank(rest),
    ensures
        leading_spaces(blanks(n) + word + rest) == n,
        words(blanks(n) + word + rest) == seq![word] + words(rest),
{
    let s = blanks(n) + word + rest;
    assert(s[n] == word[0]);
    lemma_leading_spaces_are(s, n);
    let t = s.skip(n);
    assert(t =~= word + rest);
    assert forall|i: int| 0 <= i < word.len() implies !is_space(#[trigger] t[i]) by {
        assert(t[i] == word[i]);
    }
    if rest.len() > 0 {
        assert(t[word.len() as int] == rest[0]);
    }
    lemma_leading_word_is(t, word.len() as int);
    assert(t.take(word.len() as int) =~= word);
    assert(t.skip(word.len() as int) =~= rest);
}

/// The words of a text that is made of words, and of what follows it, are these words
/// and those of what follows.
pub proof fn lemma_words_of_spread(list: Seq<Spaced>, rest: Seq<char>)
    requires
        well_spaced(list),
        opens_blank(rest),
    ensures
        words(spread(list) + rest) == bare(list) + words(rest),
    decreases list.len(),
{
    if list.len() == 0 {
        assert(spread(list) + rest =~= rest);
        assert(bare(list) + words(rest) =~= words(rest));
    } else {
        let first = list[0];
        let others = list.drop_first();
        let tail = spread(others) + rest;
        assert forall|i: int| 0 <= i < others.len() implies is_word((#[trigger] others[i]).word)
            && others[i].blanks >= 1 by {
            assert(others[i] == list[i + 1]);
        }
        lemma_words_of_spread(others, rest);
        if others.len() > 0 {
            assert(others[0].blanks >= 1);
            assert(spread(others)[0] == blanks(others[0].blanks)[0]);
            assert(tail[0] == ' ');
        } else {
            assert(tail =~= rest);
        }
        assert(spread(list) + rest =~= blanks(first.blanks) + first.word + tail);
        lemma_first_word(first.blanks, first.word, tail);
        assert(bare(list) =~= seq![first.word] + bare(others));
        assert(seq![first.word] + (bare(others) + words(rest)) =~= bare(list) + words(rest));
    }
}

/// The text of two lists of words is the text of one list behind that of the other.
pub proof fn lemma_spread_add(a: Seq<Spaced>, b: Seq<Spaced>)
    ensures
        spread(a + b) == spread(a) + spread(b),
    decreases a.len(),
{
    if a.len() == 0 {
        assert(a + b =~= b);
        assert(spread(a) + spread(b) =~= spread(b));
    } else {
        lemma_spread_add(a.drop_first(), b);
        assert((a + b).drop_first() =~= a.drop_first() + b);
        assert(spread(a + b) =~= spread(a) + spread(b));
    }
}

/// White space at the end of a text makes no word.
proof fn lemma_trailing_space(s: Seq<char>)
    requires
        s.len() > 0,
        is_space(s.last()),
    ensures
        words(s.drop_last()) == words(s),
    decreases s.len(),
{
    let shorter = s.drop_last();
    let a = leading_spaces(s);
    let t = s.skip(a);
    lemma_leading(s);
    lemma_leading(t);
    assert forall|i: int| 0 <= i < shorter.len() implies #[trigger] shorter[i] == s[i] by {}
    if t.len() == 0 {
        lemma_leading_spaces_are(shorter, shorter.len() as int);
        assert(shorter.skip(shorter.len() as int) =~= Seq::<char>::empty());
    } else {
        lemma_leading_spaces_are(shorter, a);
        let u = shorter.skip(a);
        assert(u =~= t.drop_last());
        let n = leading_word(t);
        assert(t.last() == s.last());
        assert(t[0] == s[a]);
        assert forall|i: int| 0 <= i < n implies !is_space(#[trigger] u[i]) by {
            assert(u[i] == t[i]);
        }
        lemma_leading_word_is(u, n);
        let rest = t.skip(n);
        assert(rest.last() == t.last());
        lemma_trailing_space(rest);
        assert(u.skip(n) =~= rest.drop_last());
        assert(u.take(n) =~= t.take(n));
    }
}

/// Trimming the end of a text takes off only white space.
pub proof fn lemma_trim_end(s: Seq<char>)
    ensures
        words(trim_end(s)) == words(s),
        trim_end(s).len() <= s.len(),
        trim_end(s) == s.take(trim_end(s).len() as int),
        forall|i: int| trim_end(s).len() <= i < s.len() ==> is_space(#[trigger] s[i]),
    decreases s.len(),
{
    if s.len() > 0 && is_space(s.last()) {
        let shorter = s.drop_last();
        lemma_trim_end(shorter);
        lemma_trailing_space(s);
        let n = trim_end(s).len() as int;
        assert(shorter.take(n) =~= s.take(n));
        assert forall|i: int| n <= i < s.len() implies is_space(#[trigger] s[i]) by {
            if i < shorter.len() {
                assert(shorter[i] == s[i]);
            }
        }
    } else {
        assert(s.take(s.len() as int) =~= s);
    }
}

/// Trimming a text takes off only white space and leaves its words.
pub proof fn lemma_trimmed(s: Seq<char>)
    ensures
        words(trimmed(s)) == words(s),
        ({
            let a = leading_spaces(s);
            let n = trimmed(s).len() as int;
            &&& 0 <= a && a + n <= s.len()
            &&& trimmed(s) == s.subrange(a, a + n)
            &&& a < s.len() ==> n > 0
        }),
{
    let a = leading_spaces(s);
    let t = s.skip(a);
    lemma_leading(s);
    lemma_trim_end(t);
    if t.len() > 0 {
        assert(t[0] == s[a]);
    }
    lemma_leading_spaces_are(t, 0);
    assert(t.skip(0) =~= t);
    let n = trimmed(s).len() as int;
    assert(t.take(n) =~= s.subrange(a, a + n));
}

/// A word is not changed by trimming.
pub proof fn lemma_trimmed_word(s: Seq<char>)
    requires
        is_word(s),
    ensures
        trimmed(s) == s,
{
    lemma_leading_spaces_are(s, 0);
    assert(s.skip(0) =~= s);
    assert(!is_space(s[s.len() - 1]));
}

} // verus!
