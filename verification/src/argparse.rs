//! The command line's shape.
//!
//! The host parses the actual arguments; this is the parsed form it hands
//! on: an optional category to file the note under, and the note's text.

use vstd::prelude::*;

verus! {

/// A parsed command line for adding a note.
pub struct Cli {
    /// Category to organize the note under.
    pub category: Option<String>,
    /// The text content to be saved.
    pub text: String,
}

impl Cli {
    /// The category label a note is filed under: the given one, or the
    /// default label when none was given.
    pub fn category_label(&self) -> (r: &str)
        ensures
            (match self.category {
                Some(c) => r@ == c@,
                None => r@ == "general"@,
            }),
    {
        match &self.category {
            Some(c) => c.as_str(),
            None => "general",
        }
    }
}

} // verus!
