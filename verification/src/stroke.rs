//! A stroke's name.
use vstd::prelude::*;

verus! {

/// The name of a stroke. A stroke has no attributes of its own: it exists only because a cell or
/// a glyph rule mentions it.
#[derive(Debug, Clone, PartialEq, Eq, Hash)]
pub struct Stroke(pub String);

impl View for Stroke {
    type V = Seq<char>;

    open spec fn view(&self) -> Seq<char> {
        self.0@
    }
}

impl Stroke {
    /// The stroke named `name`.
    #[allow(clippy::should_implement_trait)]
    pub fn from(name: &str) -> (s: Stroke)
        ensures
            s@ == name@,
    {
        Stroke(name.to_owned())
    }

    /// The same stroke, as a value of its own.
    pub fn duplicate(&self) -> (s: Stroke)
        ensures
            s == *self,
    {
        Stroke(self.0.clone())
    }

    /// Whether `self` and `other` name the same stroke.
    pub fn same_as(&self, other: &Stroke) -> (b: bool)
        ensures
            b == (self@ == other@),
    {
        self.0 == other.0
    }

    /// The stroke's name.
    pub fn as_str(&self) -> (s: &str)
        ensures
            s@ == self@,
    {
        self.0.as_str()
    }
}

} // verus!
