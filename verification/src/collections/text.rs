use vstd::prelude::*;

verus! {

/// The words of a line: what stands between its white space.
pub uninterp spec fn words_of(line: Seq<char>) -> Seq<Seq<char>>;

/// `str::split_whitespace`, each word as a `String` of its own.
#[verifier::external_body]
pub(crate) fn split_words(line: &str) -> (words: Vec<String>)
    ensures
        words.deep_view() == words_of(line@),
{
    line.split_whitespace().map(|word| word.to_owned()).collect()
}

/// `str::chars`: the letters of a text, one by one.
#[verifier::external_body]
pub(crate) fn letters(text: &str) -> (chars: Vec<char>)
    ensures
        chars@ == text@,
{
    text.chars().collect()
}

/// `String::from_iter`: the text that the letters spell.
#[verifier::external_body]
pub(crate) fn spell(chars: &Vec<char>) -> (text: String)
    ensures
        text@ == chars@,
{
    String::from_iter(chars.iter())
}

} // verus!
