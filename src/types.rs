//! The source text of a template.

use vstd::prelude::*;
use vstd::utf8::encode_utf8;
use crate::text::{span_text, valid_span};

verus! {

/// A borrowed view of a whole template's source text, to which every span
/// refers.
#[derive(Clone, Copy)]
pub struct TemplateString<'t>(pub &'t str);

impl<'t> TemplateString<'t> {
    /// The text at span `at`.
    pub fn content(&self, at: (usize, usize)) -> (r: &'t str)
        requires
            valid_span(self.0@, at),
        ensures
            encode_utf8(r@) == encode_utf8(self.0@).subrange(at.0 as int, at.0 + at.1),
    {
        span_text(self.0, at)
    }
}

impl<'t> From<&'t str> for TemplateString<'t> {
    fn from(value: &'t str) -> (r: Self) {
        TemplateString(value)
    }
}

impl<'t> vstd::std_specs::convert::FromSpecImpl<&'t str> for TemplateString<'t> {
    open spec fn obeys_from_spec() -> bool {
        true
    }

    open spec fn from_spec(v: &'t str) -> Self {
        TemplateString(v)
    }
}

} // verus!
