//! Construction-time configuration: named values handed to a variant's
//! constructor, and the non-fatal diagnostic channel that unrecognized
//! keys are reported through.

use vstd::prelude::*;

verus! {

/// A configuration value: variants take strings and flags.
#[derive(Clone, Debug)]
pub enum ConfigValue {
    Text(String),
    Flag(bool),
}

/// The non-fatal diagnostic channel. Construction reports each ignored
/// configuration key here; the foreign bridge routes failure details here
/// before surfacing its generic error.
#[derive(Debug)]
pub struct Diagnostics {
    notes: Vec<String>,
}

impl View for Diagnostics {
    type V = Seq<Seq<char>>;

    closed spec fn view(&self) -> Seq<Seq<char>> {
        self.notes.deep_view()
    }
}

impl Diagnostics {
    /// An empty channel.
    pub fn new() -> (r: Diagnostics)
        ensures
            r@ == Seq::<Seq<char>>::empty(),
    {
        Diagnostics { notes: Vec::new() }
    }

    /// Record one note.
    pub fn report(&mut self, note: String)
        ensures
            final(self)@ == old(self)@.push(note@),
    {
        self.notes.push(note);
    }

    /// The notes recorded so far, oldest first.
    pub fn notes(&self) -> (r: &Vec<String>)
        ensures
            r.deep_view() == self@,
    {
        &self.notes
    }
}

} // verus!
