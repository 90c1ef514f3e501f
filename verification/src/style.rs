//! Style values applied to a widget's class attribute.

use vstd::prelude::*;

verus! {

/// A style: the string written into a widget's single class attribute.
/// An empty string stands for "no style": creation does not touch the
/// class attribute at all in that case.
pub struct Style(pub String);

impl Style {
    /// The empty style: leaves the class attribute untouched on creation.
    pub fn none() -> (s: Style)
        ensures
            s.0@ == Seq::<char>::empty(),
    {
        Style(String::new())
    }

    /// True when this style carries no class string.
    pub fn is_none(&self) -> (r: bool)
        ensures
            r == (self.0@.len() == 0),
    {
        self.0.as_str().is_empty()
    }
}

} // verus!
