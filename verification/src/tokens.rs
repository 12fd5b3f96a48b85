//! Splitting a text into its words.

use vstd::prelude::*;
use crate::chain::words_model;

verus! {

/// The words of a text: its maximal runs of characters that are not
/// whitespace, in order, as `str::split_whitespace` of the standard library
/// tells them apart.
pub uninterp spec fn whitespace_words(text: Seq<char>) -> Seq<Seq<char>>;

/// The words of `text`: calls `str::split_whitespace` of the standard
/// library and copies each word it yields into a `String`. Not proved: that
/// the words are `whitespace_words` of the text, which claims only that they
/// depend on nothing but the characters of the text.
#[verifier::external_body]
pub(crate) fn split_words(text: &str) -> (words: Vec<String>)
    ensures
        words_model(words@) == whitespace_words(text@),
{
    text.split_whitespace().map(|word| word.to_string()).collect()
}

} // verus!
