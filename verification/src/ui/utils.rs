//! Shared text.

use vstd::prelude::*;
use std::rc::Rc;

verus! {

/// A text that is shared between its holders rather than copied.
#[derive(Debug)]
pub struct RefStr(Rc<String>);

impl View for RefStr {
    type V = Seq<char>;

    closed spec fn view(&self) -> Seq<char> {
        self.0@
    }
}

impl RefStr {
    /// The shared text with the given content.
    pub fn new(content: &str) -> (text: Self)
        ensures
            text@ == content@,
    {
        RefStr(Rc::new(content.to_owned()))
    }

    /// The text as the shared value that it holds.
    pub fn into_shared(self) -> (shared: Rc<String>)
        ensures
            shared@ == self@,
    {
        self.0
    }

    /// The content.
    pub fn as_str(&self) -> (content: &str)
        ensures
            content@ == self@,
    {
        self.0.as_str()
    }
}

} // verus!
