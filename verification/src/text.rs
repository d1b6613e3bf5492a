//! The text buffer that normalization mutates in place, and the
//! character/string conversions the pipeline needs from the standard
//! library.

use vstd::prelude::*;

verus! {

/// What `str::to_lowercase` returns: a function of the characters alone.
pub uninterp spec fn lower_of(s: Seq<char>) -> Seq<char>;

/// Relies on `str::to_lowercase`: the result depends only on the characters
/// of the input; an empty input stays empty; and the result is already
/// lowercase, so folding it again changes nothing.
#[verifier::external_body]
pub(crate) fn lowercase_of(s: &str) -> (r: String)
    ensures
        r@ == lower_of(s@),
        s@.len() == 0 ==> r@.len() == 0,
        lower_of(r@) == r@,
{
    s.to_lowercase()
}

/// Relies on `str::chars` (collected with `Iterator::collect`): yields
/// exactly the characters of the string, in order.
#[verifier::external_body]
pub fn chars_of(s: &str) -> (r: Vec<char>)
    ensures
        r@ == s@,
{
    s.chars().collect()
}

/// Relies on `String`'s `FromIterator` over `char` (through
/// `Iterator::collect`): concatenates exactly the given characters.
#[verifier::external_body]
pub fn string_of(chars: &Vec<char>) -> (r: String)
    ensures
        r@ == chars@,
{
    chars.iter().collect()
}

/// The mutable text buffer a normalizer works on. Only the single
/// operation this pipeline needs is modelled: in-place case folding.
#[derive(Debug)]
pub struct NormalizedString {
    text: String,
}

impl View for NormalizedString {
    type V = Seq<char>;

    closed spec fn view(&self) -> Seq<char> {
        self.text@
    }
}

impl NormalizedString {
    /// Wrap a string into a buffer.
    pub fn new(text: String) -> (r: NormalizedString)
        ensures
            r@ == text@,
    {
        NormalizedString { text }
    }

    /// Read access to the current text.
    pub fn get(&self) -> (r: &str)
        ensures
            r@ == self@,
    {
        self.text.as_str()
    }

    /// Case-fold the whole buffer in place.
    pub fn lowercase(&mut self)
        ensures
            final(self)@ == lower_of(old(self)@),
    {
        let lowered = lowercase_of(self.text.as_str());
        self.text = lowered;
    }
}

} // verus!
