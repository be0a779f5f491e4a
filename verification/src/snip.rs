//! Snippet records, the record builder, and the segmenter.
//!
//! [`get_snippet_segments`] yields the raw text of every snippet block of a
//! document, in document order. [`Snippet::from_markdown`] turns one such
//! raw block (or any text holding a block) into an owned [`Snippet`] whose
//! fields copy the block's captures: header tokens verbatim, description
//! and body split into one entry per physical line, with whole trailing
//! blank lines dropped.

use vstd::prelude::*;

use crate::grammar;
use crate::grammar::{blocks_from, blocks_of, parse_block_at, Block};
use crate::lines::{region_lines, region_to_lines, str_chars};
use vstd::string::StrSliceExecFns;
use vstd::string::StringExecFns;

verus! {

/// Mathematical value of a [`SnippetBody`].
#[verifier::ext_equal]
pub struct SnippetBodyView {
    pub prefix: Seq<char>,
    pub scope: Seq<char>,
    pub body: Seq<Seq<char>>,
    pub description: Seq<Seq<char>>,
}

/// Mathematical value of a [`Snippet`].
#[verifier::ext_equal]
pub struct SnippetView {
    pub identifier: Seq<char>,
    pub body: SnippetBodyView,
}

/// The prefix, scope, body lines and description lines of one snippet:
/// everything but the identifier under which it is filed.
pub struct SnippetBody {
    prefix: String,
    scope: String,
    body: Vec<String>,
    description: Vec<String>,
}

/// One extracted snippet: the identifier keying it, and its body.
pub struct Snippet {
    identifier: String,
    body: SnippetBody,
}

impl View for SnippetBody {
    type V = SnippetBodyView;

    closed spec fn view(&self) -> SnippetBodyView {
        SnippetBodyView {
            prefix: self.prefix@,
            scope: self.scope@,
            body: self.body.deep_view(),
            description: self.description.deep_view(),
        }
    }
}

impl View for Snippet {
    type V = SnippetView;

    closed spec fn view(&self) -> SnippetView {
        SnippetView { identifier: self.identifier@, body: self.body@ }
    }
}

/// The record one raw block yields: header tokens verbatim, description
/// and body regions split into one entry per physical line, with their
/// trailing blank lines dropped.
pub open spec fn snippet_of_block(b: Block) -> SnippetView {
    SnippetView {
        identifier: b.id,
        body: SnippetBodyView {
            prefix: b.prefix,
            scope: b.scope,
            body: region_lines(b.body),
            description: region_lines(b.description),
        },
    }
}

impl SnippetBody {
    /// Packs the four fields, unchanged.
    pub fn new(prefix: String, scope: String, body: Vec<String>, description: Vec<String>) -> (r:
        SnippetBody)
        ensures
            r@.prefix == prefix@,
            r@.scope == scope@,
            r@.body == body.deep_view(),
            r@.description == description.deep_view(),
    {
        SnippetBody { prefix, scope, body, description }
    }
}

/// Owned copies of a vector of borrowed strings.
fn copy_strs(xs: &Vec<&str>) -> (r: Vec<String>)
    ensures
        r.deep_view() == xs.deep_view(),
{
    let mut r: Vec<String> = Vec::new();
    let mut i: usize = 0;
    proof {
        assert(r.deep_view() =~= xs.deep_view().take(0));
    }
    while i < xs.len()
        invariant
            i <= xs@.len(),
            r@.len() == i,
            r.deep_view() == xs.deep_view().take(i as int),
        decreases xs@.len() - i,
    {
        r.push(String::from_str(xs[i]));
        i = i + 1;
        proof {
            let j: int = i as int - 1;
            assert(r@.len() == i);
            assert(r@[j]@ == xs@[j]@);
            assert(r.deep_view()[j] == r@[j]@);
            assert(xs.deep_view()[j] == xs@[j]@);
            assert(r.deep_view() =~~= xs.deep_view().take(i as int));
        }
    }
    proof {
        assert(xs.deep_view().take(xs@.len() as int) =~= xs.deep_view());
    }
    r
}

impl Snippet {
    /// Builds a snippet from already-split fields, copying every borrowed
    /// string into an owned one.
    pub fn new(
        identifier: &str,
        prefix: &str,
        scope: &str,
        body: &Vec<&str>,
        description: &Vec<&str>,
    ) -> (r: Self)
        ensures
            r@.identifier == identifier@,
            r@.body.prefix == prefix@,
            r@.body.scope == scope@,
            r@.body.body == body.deep_view(),
            r@.body.description == description.deep_view(),
    {
        let body_new = copy_strs(body);
        let description_new = copy_strs(description);
        let sb = SnippetBody::new(
            String::from_str(prefix),
            String::from_str(scope),
            body_new,
            description_new,
        );
        Snippet { identifier: String::from_str(identifier), body: sb }
    }

    /// Builds a snippet from the raw captures of one block: the header
    /// tokens are taken verbatim; the body and description regions each
    /// split into one entry per physical line and lose their whole
    /// trailing blank lines, so a kept line retains its own trailing
    /// spaces and each region still holds at least one (possibly empty)
    /// line.
    pub fn from_text(
        identifier: &str,
        prefix: &str,
        scope: &str,
        body: &str,
        description: &str,
    ) -> (r: Self)
        ensures
            r@.identifier == identifier@,
            r@.body.prefix == prefix@,
            r@.body.scope == scope@,
            r@.body.body == region_lines(body@),
            r@.body.description == region_lines(description@),
            r@.body.body.len() >= 1,
            r@.body.description.len() >= 1,
    {
        let body_v = region_to_lines(body);
        let description_v = region_to_lines(description);
        proof {
            crate::lines::lemma_region_lines_trailing(body@);
            crate::lines::lemma_region_lines_trailing(description@);
        }
        let sb = SnippetBody::new(
            String::from_str(prefix),
            String::from_str(scope),
            body_v,
            description_v,
        );
        Snippet { identifier: String::from_str(identifier), body: sb }
    }

    /// Builds the record of the first snippet block found in `text`, or
    /// `None` when no block matches the grammar: the malformed-block
    /// failure of the record builder.
    pub fn try_from_markdown(text: &str) -> (r: Option<Self>)
        ensures
            r is Some <==> blocks_of(text@).len() > 0,
            r matches Some(s) ==> s@ == snippet_of_block(blocks_of(text@)[0]),
    {
        let v = str_chars(text);
        let ghost d = text@;
        let mut i: usize = 0;
        loop
            invariant
                i <= v@.len(),
                v@ == d,
                d == text@,
                blocks_of(d) == blocks_from(d, i as int),
            decreases v@.len() - i,
        {
            if i >= v.len() {
                return None;
            }
            match grammar::parse_block_x(&v, i) {
                Some(sp) => {
                    proof {
                        grammar::lemma_parse_block_at(d, i as int);
                    }
                    let ghost b = parse_block_at(d, i as int).unwrap();
                    proof {
                        assert(blocks_from(d, i as int) == seq![b] + blocks_from(d, b.end));
                        assert(blocks_of(d)[0] == b);
                    }
                    let id = text.substring_char(sp.header.id_start, sp.header.id_end);
                    let prefix = text.substring_char(sp.header.prefix_start, sp.header.prefix_end);
                    let scope = text.substring_char(sp.header.scope_start, sp.header.scope_end);
                    let body = text.substring_char(sp.body_start, sp.body_end);
                    let description = text.substring_char(sp.desc_start, sp.desc_end);
                    let s = Self::from_text(id, prefix, scope, body, description);
                    proof {
                        assert(s@ =~~= snippet_of_block(b));
                    }
                    return Some(s);
                },
                None => {
                    i = i + 1;
                },
            }
        }
    }

    /// Builds the record of the first snippet block found in `text`. The
    /// caller must know a block is there; [`Snippet::try_from_markdown`]
    /// reports the absence instead of requiring it.
    pub fn from_markdown(text: &str) -> (r: Self)
        requires
            blocks_of(text@).len() > 0,
        ensures
            r@ == snippet_of_block(blocks_of(text@)[0]),
    {
        match Self::try_from_markdown(text) {
            Some(s) => s,
            None => vstd::pervasive::unreached(),
        }
    }

    /// The identifier keying this snippet.
    pub fn get_identifier(&self) -> (r: &String)
        ensures
            r@ == self@.identifier,
    {
        &self.identifier
    }

    /// Everything but the identifier, as one record.
    pub fn get_snippetbody(&self) -> (r: &SnippetBody)
        ensures
            r@ == self@.body,
    {
        &self.body
    }

    /// The trigger text.
    pub fn get_prefix(&self) -> (r: &String)
        ensures
            r@ == self@.body.prefix,
    {
        &self.body.prefix
    }

    /// The opaque language-scope tag.
    pub fn get_scope(&self) -> (r: &String)
        ensures
            r@ == self@.body.scope,
    {
        &self.body.scope
    }

    /// The body lines, in source order.
    pub fn get_body(&self) -> (r: &Vec<String>)
        ensures
            r.deep_view() == self@.body.body,
    {
        &self.body.body
    }

    /// The description lines, in source order.
    pub fn get_description(&self) -> (r: &Vec<String>)
        ensures
            r.deep_view() == self@.body.description,
    {
        &self.body.description
    }
}

/// Round trip between segmenter and record builder: the raw text of any
/// block the segmenter yields, handed back to the builder, is itself a
/// document whose first block carries the very same record. Through
/// [`Snippet::from_markdown`]'s contract, building from segment `k` of a
/// document therefore yields exactly the record of the document's block
/// `k`.
pub proof fn lemma_segment_round_trip(d: Seq<char>, k: int)
    requires
        0 <= k < blocks_of(d).len(),
    ensures
        ({
            let b = blocks_of(d)[k];
            let seg = d.subrange(b.start, b.end);
            &&& blocks_of(seg).len() > 0
            &&& snippet_of_block(blocks_of(seg)[0]) == snippet_of_block(b)
        }),
{
    grammar::lemma_blocks_are_parses(d, 0);
    let b = blocks_of(d)[k];
    grammar::lemma_parse_block_at(d, b.start);
    grammar::lemma_parse_block_shift(d, b.start);
    let seg = d.subrange(b.start, b.end);
    let b2 = grammar::parse_block_at(seg, 0).unwrap();
    grammar::lemma_parse_block_at(seg, 0);
    assert(blocks_of(seg) =~= seq![b2] + blocks_from(seg, b2.end));
    assert(blocks_of(seg)[0] == b2);
    assert(snippet_of_block(b2) =~~= snippet_of_block(b));
}

/// The segmenter: scans the whole document and returns the raw text of
/// every snippet block, in document order. A document without blocks
/// yields an empty vector; that is not an error.
pub fn get_snippet_segments<'a>(text: &'a String) -> (r: Vec<&'a str>)
    ensures
        r@.len() == blocks_of(text@).len(),
        forall|k: int|
            0 <= k < r@.len() ==> r@[k]@ == text@.subrange(
                blocks_of(text@)[k].start,
                blocks_of(text@)[k].end,
            ),
{
    let v = str_chars(text.as_str());
    let ghost d = text@;
    let ghost bs = blocks_of(d);
    let mut out: Vec<&str> = Vec::new();
    let mut i: usize = 0;
    while i < v.len()
        invariant
            i <= v@.len(),
            v@ == d,
            d == text@,
            bs == blocks_of(d),
            out@.len() <= bs.len(),
            blocks_from(d, i as int) == bs.skip(out@.len() as int),
            forall|k: int|
                0 <= k < out@.len() ==> out@[k]@ == d.subrange(bs[k].start, bs[k].end),
        decreases v@.len() - i,
    {
        match grammar::parse_block_x(&v, i) {
            Some(sp) => {
                proof {
                    grammar::lemma_parse_block_at(d, i as int);
                }
                let ghost b = parse_block_at(d, i as int).unwrap();
                let ghost n = out@.len() as int;
                proof {
                    assert(blocks_from(d, i as int) == seq![b] + blocks_from(d, b.end));
                    assert(bs[n] == bs.skip(n)[0]);
                    assert(bs.skip(n + 1) =~= bs.skip(n).skip(1));
                    assert((seq![b] + blocks_from(d, b.end)).skip(1) =~= blocks_from(d, b.end));
                }
                let seg = text.as_str().substring_char(sp.start, sp.end);
                out.push(seg);
                i = sp.end;
            },
            None => {
                i = i + 1;
            },
        }
    }
    proof {
        assert(bs.skip(out@.len() as int).len() == 0);
        assert(out@.len() == bs.len());
    }
    out
}

} // verus!
