//! Texts for people, put together from words, numbers and quoted texts.

use vstd::prelude::*;
use vstd::string::*;

use crate::strings;
use crate::strings::push_decimal;

verus! {

/// The text that `format!` gives for a text under `{:?}`: in quotes, with what cannot
/// be read in it escaped.
pub uninterp spec fn quoted(text: Seq<char>) -> Seq<char>;

/// Calls `format!` with `{:?}` on a text. Claimed: what it gives depends on the text
/// alone.
#[verifier::external_body]
fn quote(text: &str) -> (r: String)
    ensures
        r@ == quoted(text@),
{
    format!("{:?}", text)
}

/// A text that is being put together.
#[derive(Debug)]
pub struct Phrase {
    text: String,
}

impl Phrase {
    pub closed spec fn view(&self) -> Seq<char> {
        self.text@
    }

    /// Appends a text.
    pub fn and(self, text: &str) -> (p: Phrase)
        ensures
            p@ == self@ + text@,
    {
        let mut out = self.text;
        out.append(text);
        Phrase { text: out }
    }

    /// Appends a number.
    pub fn number(self, n: u64) -> (p: Phrase)
        ensures
            p@ == self@ + strings::decimal(n as nat),
    {
        let mut out = self.text;
        push_decimal(&mut out, n);
        Phrase { text: out }
    }

    /// Appends a text in quotes.
    pub fn quote(self, text: &str) -> (p: Phrase)
        ensures
            p@ == self@ + quoted(text@),
    {
        let q = quote(text);
        self.and(q.as_str())
    }

    /// The text as it stands.
    pub fn done(self) -> (s: String)
        ensures
            s@ == self@,
    {
        self.text
    }
}

/// A text that begins with these words.
pub fn say(text: &str) -> (p: Phrase)
    ensures
        p@ == text@,
{
    Phrase { text: text.to_owned() }
}

} // verus!
