//! Generic and trait-based helpers: a pair with its larger element,
//! summarizable articles and tweets, and borrowed text with lifetimes.

use vstd::prelude::*;
use vstd::std_specs::cmp::PartialOrdSpec;
use crate::text::{byte_len, longest_word_fold, split_word_bounds, words_of};

verus! {

broadcast use vstd::slice::axiom_spec_len;

/// A pair of two values of one type.
pub struct Pair<T> {
    pub first: T,
    pub second: T,
}

impl<T> Pair<T> {
    /// Creates a pair from its two values.
    pub fn new(first: T, second: T) -> (r: Self)
        ensures
            r.first == first,
            r.second == second,
    {
        Pair { first, second }
    }
}

impl<T: PartialOrd> Pair<T> {
    /// Returns the larger of the two values: the first when it compares
    /// greater, the second otherwise.
    pub fn max(&self) -> (r: &T)
        ensures
            T::obeys_partial_cmp_spec() ==> r == (if self.first.partial_cmp_spec(&self.second)
                == Some(core::cmp::Ordering::Greater) {
                &self.first
            } else {
                &self.second
            }),
    {
        if self.first > self.second {
            &self.first
        } else {
            &self.second
        }
    }
}

/// Something that can describe itself in one line.
pub trait Summarize {
    /// The summary this value produces.
    spec fn spec_summary(&self) -> Seq<char>;

    /// Produces the summary.
    fn summary(&self) -> (r: String)
        ensures
            r@ == self.spec_summary(),
    ;
}

/// An article with a title, an author and a body.
pub struct Article {
    pub title: String,
    pub author: String,
    pub content: String,
}

impl Article {
    /// Creates an article from its parts.
    pub fn new(title: String, author: String, content: String) -> (r: Self)
        ensures
            r.title@ == title@,
            r.author@ == author@,
            r.content@ == content@,
    {
        Article { title, author, content }
    }
}

impl Summarize for Article {
    /// An article's summary names its title and its author.
    open spec fn spec_summary(&self) -> Seq<char> {
        self.title@ + " by "@ + self.author@
    }

    fn summary(&self) -> (r: String) {
        let mut s = self.title.clone();
        s.append(" by ");
        s.append(self.author.as_str());
        s
    }
}

/// A short message by a user.
pub struct Tweet {
    pub username: String,
    pub content: String,
}

impl Tweet {
    /// Creates a tweet from its parts.
    pub fn new(username: String, content: String) -> (r: Self)
        ensures
            r.username@ == username@,
            r.content@ == content@,
    {
        Tweet { username, content }
    }
}

impl Summarize for Tweet {
    /// A tweet's summary tags the user and repeats the message.
    open spec fn spec_summary(&self) -> Seq<char> {
        "@"@ + self.username@ + ": "@ + self.content@
    }

    fn summary(&self) -> (r: String) {
        let mut s = String::new();
        s.append("@");
        s.append(self.username.as_str());
        s.append(": ");
        s.append(self.content.as_str());
        s
    }
}

/// Formats a breaking-news notification from anything summarizable.
pub fn notify<T: Summarize>(item: &T) -> (r: String)
    ensures
        r@ == "Breaking news: "@ + item.spec_summary(),
{
    let mut s = String::new();
    s.append("Breaking news: ");
    let summary = item.summary();
    s.append(summary.as_str());
    s
}

/// Returns the longer of two string slices, measured in bytes; the second
/// when they tie.
pub fn longest_string<'a>(first: &'a str, second: &'a str) -> (r: &'a str)
    ensures
        byte_len(first@) > byte_len(second@) ==> r@ == first@,
        byte_len(first@) <= byte_len(second@) ==> r@ == second@,
{
    if first.as_bytes().len() > second.as_bytes().len() {
        first
    } else {
        second
    }
}

/// A book borrowing its title and its text.
pub struct Book<'a> {
    pub title: &'a str,
    pub content: &'a str,
}

impl<'a> Book<'a> {
    /// Creates a book from its borrowed parts.
    pub fn new(title: &'a str, content: &'a str) -> (r: Self)
        ensures
            r.title@ == title@,
            r.content@ == content@,
    {
        Book { title, content }
    }

    /// Returns the longest word of the book's text, in bytes as the
    /// standard library measures strings; of several equally long words,
    /// the last. There is none when the text has no words.
    pub fn longest_word(&self) -> (r: Option<&str>)
        ensures
            match r {
                Some(w) => words_of(self.content@).len() > 0 && w@ == longest_word_fold(
                    words_of(self.content@),
                ),
                None => words_of(self.content@).len() == 0,
            },
    {
        if self.content.is_empty() {
            proof {
                assert(words_of(self.content@).len() == 0);
            }
            return None;
        }
        let bounds = split_word_bounds(self.content);
        if bounds.len() == 0 {
            return None;
        }
        let w = crate::strings::longest_word(self.content);
        Some(w)
    }
}

} // verus!
