//! Splitting a text into tokens, with [`unicode_segmentation`].

use crate::token::TokenRef;
use vstd::prelude::*;

verus! {

/// The tokens that a text is split into: its substrings between the word
/// boundaries of Unicode's text segmentation, in their order.
pub uninterp spec fn word_bounds(text: Seq<char>) -> Seq<Seq<char>>;

/// `UnicodeSegmentation::split_word_bounds`, with the substrings that it
/// yields collected.
#[verifier::external_body]
pub(crate) fn split_words<'a>(content: &'a str) -> (words: Vec<TokenRef<'a>>)
    ensures
        words.deep_view() == word_bounds(content@),
{
    unicode_segmentation::UnicodeSegmentation::split_word_bounds(content).collect()
}

} // verus!
