//! The text-entry dialogue model: the state behind the modal input window and
//! the rule that decides when the entered text is complete.

use vstd::prelude::*;

verus! {

/// The state of the modal text-entry dialogue: the text typed so far.
pub struct Dialogue {
    pub text: String,
}

impl Dialogue {
    /// Wraps the text typed so far into a dialogue state.
    pub fn new(text: String) -> (d: Dialogue)
        ensures
            d.text@ == text@,
    {
        Dialogue { text }
    }

    /// The dialogue is finished as soon as the text ends in a space or a
    /// newline: typing either one closes the window.
    pub fn should_close(&self) -> (r: bool)
        ensures
            r == dialogue_finished(self.text@),
    {
        let n = self.text.as_str().unicode_len();
        if n == 0 {
            false
        } else {
            let c = self.text.as_str().get_char(n - 1);
            c == ' ' || c == '\n'
        }
    }
}

/// The entered text is complete when its last character is a space or a newline.
pub open spec fn dialogue_finished(text: Seq<char>) -> bool {
    text.len() > 0 && (text.last() == ' ' || text.last() == '\n')
}

} // verus!
