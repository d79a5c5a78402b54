//! At the heart of a [`Chain`](crate::Chain) is a [`Token`]. In fact, this is just a String. But
//! we make a distinction here: A Token is any atomic piece of text.
//!
//! When using [`ChainBuilder::feed_str()`](crate::chain::ChainBuilder::feed_str()),
//! it is the output of [`unicode_segmentation::UnicodeSegmentation::split_word_bounds()`]; that is,
//! it can be a word, a symbol like `"`, or something else. See that crate for more information.
//!
//! If you want more control of what you want a token to be, you can use
//! [`ChainBuilder::feed_tokens()`](crate::chain::ChainBuilder::feed_tokens()).
//!
//! In contracts a token is its text, a `Seq<char>`, and a pair of tokens is
//! the pair of their texts, whether the pair owns its tokens or borrows them.

use vstd::prelude::*;
use vstd::std_specs::cmp::PartialEqSpecImpl;
use vstd::std_specs::convert::FromSpecImpl;

verus! {

/// Representation of a string segment.
pub type Token = String;

/// An owned pair of [`Token`]s.
#[derive(Debug, PartialEq, Eq, PartialOrd, Ord, Hash)]
pub struct TokenPair(pub Token, pub Token);

/// A borrowed version of [`Token`]; if [`Token`] is [`String`], then [`TokenRef`] is `&str`.
pub type TokenRef<'a> = &'a str;

/// A borrowed version of [`TokenPair`] that does not own its pair. Like [`TokenRef`] to [`Token`].
pub type TokenPairRef<'a> = (TokenRef<'a>, TokenRef<'a>);

impl View for TokenPair {
    type V = (Seq<char>, Seq<char>);

    /// The texts of the two tokens.
    open spec fn view(&self) -> (Seq<char>, Seq<char>) {
        (self.0@, self.1@)
    }
}

impl TokenPair {
    /// The pair of two tokens with the texts of `left` and `right`.
    pub fn new(left: &str, right: &str) -> (pair: Self)
        ensures
            pair@ == (left@, right@),
    {
        TokenPair(left.to_owned(), right.to_owned())
    }

    /// The same pair, borrowed.
    pub fn as_ref(&self) -> (pair: TokenPairRef<'_>)
        ensures
            pair@ == self@,
    {
        (self.0.as_str(), self.1.as_str())
    }
}

impl Clone for TokenPair {
    fn clone(&self) -> (pair: Self)
        ensures
            pair == *self,
    {
        TokenPair(self.0.clone(), self.1.clone())
    }
}

impl<'a> From<&TokenPairRef<'a>> for TokenPair {
    /// An owned pair with the texts of the borrowed one.
    fn from(value: &TokenPairRef<'a>) -> (pair: Self)
        ensures
            pair@ == value@,
    {
        TokenPair(value.0.to_owned(), value.1.to_owned())
    }
}

/// Contracts know an owned token by its text alone, so they cannot name the
/// pair that `from` returns: its own contract says which texts the pair has.
impl<'a> FromSpecImpl<&TokenPairRef<'a>> for TokenPair {
    open spec fn obeys_from_spec() -> bool {
        false
    }

    open spec fn from_spec(value: &TokenPairRef<'a>) -> Self {
        arbitrary()
    }
}

/// `==` of `str`: whether two string slices hold the same text.
#[verifier::external_body]
fn same_text(a: &str, b: &str) -> (same: bool)
    ensures
        same == (a@ == b@),
{
    a == b
}

impl<'a> PartialEq<TokenPairRef<'a>> for TokenPair {
    fn eq(&self, other: &TokenPairRef<'a>) -> (equal: bool) {
        same_text(self.0.as_str(), other.0) && same_text(self.1.as_str(), other.1)
    }
}

/// An owned pair equals the borrowed pair that has the same texts.
impl<'a> PartialEqSpecImpl<TokenPairRef<'a>> for TokenPair {
    open spec fn obeys_eq_spec() -> bool {
        true
    }

    open spec fn eq_spec(&self, other: &TokenPairRef<'a>) -> bool {
        self@ == other@
    }
}

impl<'a> PartialEq<&TokenPairRef<'a>> for TokenPair {
    fn eq(&self, other: &&TokenPairRef<'a>) -> (equal: bool) {
        same_text(self.0.as_str(), other.0) && same_text(self.1.as_str(), other.1)
    }
}

/// An owned pair equals the borrowed pair that has the same texts.
impl<'a> PartialEqSpecImpl<&TokenPairRef<'a>> for TokenPair {
    open spec fn obeys_eq_spec() -> bool {
        true
    }

    open spec fn eq_spec(&self, other: &&TokenPairRef<'a>) -> bool {
        self@ == other@
    }
}

/// A borrowed pair can be looked up in a map whose keys are owned pairs: it
/// is equivalent to the key that has the same texts, and to no other.
impl<'a> hashbrown::Equivalent<TokenPair> for TokenPairRef<'a> {
    fn equivalent(&self, key: &TokenPair) -> (equivalent: bool)
        ensures
            equivalent == (self@ == key@),
    {
        key.eq(self)
    }
}

impl<'a> hashbrown::Equivalent<TokenPair> for &TokenPairRef<'a> {
    fn equivalent(&self, key: &TokenPair) -> (equivalent: bool)
        ensures
            equivalent == (self@ == key@),
    {
        key.eq(self)
    }
}

} // verus!
