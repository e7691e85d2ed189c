//! The HTML template a preview page is wrapped in.

use vstd::prelude::*;

verus! {

/// HTML template for markdown preview.
#[derive(Clone, Copy, Debug, PartialEq, Eq, Structural)]
pub enum Template {
    /// A classic, simple template.
    Classic,
    /// A curriculum vitae template.
    Cv,
}

impl Template {
    /// The template's name, as the serving layer's template files are
    /// named.
    pub open spec fn spec_name(self) -> Seq<char> {
        match self {
            Template::Classic => "classic"@,
            Template::Cv => "cv"@,
        }
    }

    /// The template's name.
    pub fn as_ref(&self) -> (r: &'static str)
        ensures
            r@ == self.spec_name(),
    {
        match self {
            Template::Classic => "classic",
            Template::Cv => "cv",
        }
    }
}

} // verus!
