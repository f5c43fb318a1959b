//! The line that the user is typing.
use crate::text::chars_of;
use vstd::prelude::*;

verus! {

/// A text and the character before which the next one goes.
#[derive(Debug)]
pub struct Draft {
    pub text: String,
    pub cursor: usize,
}

impl Default for Draft {
    fn default() -> (r: Self)
        ensures
            r.text@.len() == 0,
            r.cursor == 0,
    {
        Draft { text: String::new(), cursor: 0 }
    }
}

impl Draft {
    /// Start over with a text and the cursor at its end.
    pub fn set(&mut self, text: String)
        ensures
            final(self).text@ == text@,
            final(self).cursor == text@.len(),
    {
        self.cursor = chars_of(text.as_str()).len();
        self.text = text;
    }

    pub fn text(&self) -> (r: &str)
        ensures
            r@ == self.text@,
    {
        self.text.as_str()
    }

    pub fn cursor(&self) -> (r: usize)
        ensures
            r == self.cursor,
    {
        self.cursor
    }
}

} // verus!
