use vstd::prelude::*;
use crate::collections::text::{letters, spell, split_words, words_of};

verus! {

/// The letters that count as vowels.
pub open spec fn vowel(letter: char) -> bool {
    letter == 'a' || letter == 'e' || letter == 'i' || letter == 'o' || letter == 'u' || letter
        == 'y'
}

/// Whether the letter counts as a vowel.
pub fn is_vowel(letter: char) -> (r: bool)
    ensures
        r == vowel(letter),
{
    match letter {
        'a' => true,
        'e' => true,
        'i' => true,
        'o' => true,
        'u' => true,
        'y' => true,
        _ => false,
    }
}

/// The place of the first vowel at or behind `i` at which the word is cut.
/// A `u` does not count while the last letter before it that is no vowel is
/// a `q`, which is `last`. Without such a vowel the place is the length of
/// the word.
pub open spec fn cut(word: Seq<char>, i: int, last: Option<char>) -> int
    decreases word.len() - i,
{
    if i < 0 || i >= word.len() {
        word.len() as int
    } else if vowel(word[i]) {
        if word[i] == 'u' && last == Some('q') {
            cut(word, i + 1, last)
        } else {
            i
        }
    } else {
        cut(word, i + 1, Some(word[i]))
    }
}

/// A word in pig latin, with a blank behind it: the word from its cut on, a
/// dash, what stands before the cut, and `ay`. A word without a cut gives
/// nothing.
pub open spec fn pig_word(word: Seq<char>) -> Seq<char> {
    let at = cut(word, 0, None);
    if at >= word.len() {
        Seq::empty()
    } else {
        word.skip(at) + seq!['-'] + word.take(at) + seq!['a', 'y', ' ']
    }
}

/// The words in pig latin, one behind the other.
pub open spec fn pig_words(words: Seq<Seq<char>>) -> Seq<char>
    decreases words.len(),
{
    if words.len() == 0 {
        Seq::empty()
    } else {
        pig_words(words.drop_last()) + pig_word(words.last())
    }
}

/// A text without the one letter at its end, if it has any.
pub open spec fn without_last(text: Seq<char>) -> Seq<char> {
    if text.len() == 0 {
        text
    } else {
        text.drop_last()
    }
}

fn find_cut(word: &Vec<char>) -> (at: usize)
    ensures
        at == cut(word@, 0, None),
        at <= word@.len(),
{
    let mut last: Option<char> = None;
    let mut i: usize = 0;
    while i < word.len()
        invariant
            i <= word@.len(),
            cut(word@, 0, None) == cut(word@, i as int, last),
        decreases word.len() - i,
    {
        let letter = word[i];
        if is_vowel(letter) {
            if !(letter == 'u' && last == Some('q')) {
                return i;
            }
        } else {
            last = Some(letter);
        }
        i = i + 1;
    }
    i
}

/// Translates a word, and puts a blank behind it.
pub fn translate_word(word: &Vec<char>) -> (out: Vec<char>)
    ensures
        out@ == pig_word(word@),
{
    let at = find_cut(word);
    let mut out: Vec<char> = Vec::new();
    if at >= word.len() {
        return out;
    }
    let mut i: usize = at;
    while i < word.len()
        invariant
            at <= i <= word@.len(),
            out@ == word@.subrange(at as int, i as int),
        decreases word.len() - i,
    {
        out.push(word[i]);
        assert(out@ =~= word@.subrange(at as int, i + 1));
        i = i + 1;
    }
    out.push('-');
    let mut k: usize = 0;
    while k < at
        invariant
            k <= at <= word@.len(),
            out@ == word@.skip(at as int) + seq!['-'] + word@.take(k as int),
        decreases at - k,
    {
        out.push(word[k]);
        assert(out@ =~= word@.skip(at as int) + seq!['-'] + word@.take(k + 1));
        k = k + 1;
    }
    out.push('a');
    out.push('y');
    out.push(' ');
    assert(out@ =~= word@.skip(at as int) + seq!['-'] + word@.take(at as int) + seq![
        'a',
        'y',
        ' ',
    ]);
    out
}

/// Translates a phrase word by word. The words of the translation are
/// parted by single blanks.
pub fn translate(phrase: &str) -> (out: String)
    ensures
        out@ == without_last(pig_words(words_of(phrase@))),
{
    let words = split_words(phrase);
    let ghost all = words.deep_view();
    let mut text: Vec<char> = Vec::new();
    let mut i: usize = 0;
    assert(all.take(0) =~= Seq::<Seq<char>>::empty());
    while i < words.len()
        invariant
            i <= words@.len(),
            all == words.deep_view(),
            text@ == pig_words(all.take(i as int)),
        decreases words.len() - i,
    {
        let word = letters(words[i].as_str());
        let mut more = translate_word(&word);
        proof {
            assert(all.take(i + 1).drop_last() =~= all.take(i as int));
            assert(all.take(i + 1).last() == words@[i as int]@);
        }
        let ghost before = text@;
        let ghost added = more@;
        text.append(&mut more);
        assert(text@ =~= before + added);
        i = i + 1;
    }
    assert(all.take(words@.len() as int) =~= all);
    if text.len() > 0 {
        text.pop();
    }
    spell(&text)
}

/// A phrase in pig latin, ready to be shown.
pub fn run() -> (out: String)
    ensures
        out@ == without_last(
            pig_words(words_of("the quick brown fox jumped over the lazy log or something"@)),
        ),
{
    translate("the quick brown fox jumped over the lazy log or something")
}

} // verus!
