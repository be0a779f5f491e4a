//! The flat record shape a serializer consumes: one entry of the output
//! mapping from identifier to `{prefix, scope, body, description}`.

use vstd::prelude::*;

verus! {

/// Mathematical value of a serializer-facing [`Snippet`] record.
#[verifier::ext_equal]
pub struct SnippetView {
    pub prefix: Seq<char>,
    pub scope: Seq<Seq<char>>,
    pub body: Seq<Seq<char>>,
    pub description: Seq<Seq<char>>,
}

/// The serializer-facing snippet record: trigger prefix, scope tags split
/// into a list, body lines and description lines.
pub struct Snippet {
    prefix: String,
    scope: Vec<String>,
    body: Vec<String>,
    description: Vec<String>,
}

impl View for Snippet {
    type V = SnippetView;

    closed spec fn view(&self) -> SnippetView {
        SnippetView {
            prefix: self.prefix@,
            scope: self.scope.deep_view(),
            body: self.body.deep_view(),
            description: self.description.deep_view(),
        }
    }
}

impl Snippet {
    /// Packs the four fields, unchanged.
    pub fn new(prefix: String, scope: Vec<String>, body: Vec<String>, description: Vec<String>) -> (r:
        Self)
        ensures
            r@.prefix == prefix@,
            r@.scope == scope.deep_view(),
            r@.body == body.deep_view(),
            r@.description == description.deep_view(),
    {
        Snippet { prefix, scope, body, description }
    }
}

} // verus!
