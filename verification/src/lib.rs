//! A minimal, non-validating XML parser.
//!
//! Raw UTF-8 text is scanned into tokens by a [`Lexer`](token::Lexer), grouped
//! into structural [`Tag`](tag::Tag)s by the [`Tags`](tag::Tags) assembler
//! (with local error recovery), and finally folded into a document tree of
//! [`Xml`](document::Xml) nodes by a recursive-descent builder.

use vstd::prelude::*;

pub mod document;
pub mod roundtrip;
pub mod tag;
pub mod token;

pub use document::Xml;
pub use document::XmlView;
pub use tag::Tag;
pub use tag::TagKind;
pub use tag::Tags;
pub use token::Lexer;
pub use token::Token;
pub use token::TokenKind;

verus! {

/// Errors produced when encountering malformed XML.
#[derive(Debug)]
pub enum Error {
    /// A malformed token sequence at the tag-assembly level.  Recovered from
    /// locally: recorded in the diagnostics list while the tag stream
    /// resynchronizes and continues.
    Syntax {
        /// The offending token.
        token: String,
        /// Location of the error, as `(line, column)`.
        span: (usize, usize),
    },
    /// A well-formed but incorrectly nested or named closing tag.  Fatal for
    /// the parse call that meets it.
    Mismatched {
        /// What the parser expected to find.
        expected: String,
        /// What the parser actually found.
        found: String,
        /// Location of the error, as `(line, column)`.
        span: (usize, usize),
    },
    /// Input ended while a structural expectation was still pending.
    Eof,
}

/// Mathematical model of an [`Error`].  The span is dropped: positions are
/// diagnostic only and never affect what is parsed.
pub enum ErrorView {
    Syntax { token: Seq<char> },
    Mismatched { expected: Seq<char>, found: Seq<char> },
    Eof,
}

impl Clone for Error {
    fn clone(&self) -> (r: Self)
        ensures
            r == *self,
    {
        match self {
            Error::Syntax { token, span } => Error::Syntax { token: token.clone(), span: *span },
            Error::Mismatched { expected, found, span } => Error::Mismatched {
                expected: expected.clone(),
                found: found.clone(),
                span: *span,
            },
            Error::Eof => Error::Eof,
        }
    }
}

impl View for Error {
    type V = ErrorView;

    open spec fn view(&self) -> ErrorView {
        match self {
            Error::Syntax { token, .. } => ErrorView::Syntax { token: token@ },
            Error::Mismatched { expected, found, .. } => ErrorView::Mismatched {
                expected: expected@,
                found: found@,
            },
            Error::Eof => ErrorView::Eof,
        }
    }
}

/// Parse an XML document: exactly one root element (or text node), after an
/// optional leading declaration such as `<?xml ...?>`, which is recognized
/// and discarded.  Only UTF-8 encoding is supported.
///
/// [`document::spec_document`] says exactly which tree or which error comes
/// out for any input.  Recovered token-level syntax errors do not fail the
/// parse; structural errors (`Eof`, `Mismatched`) do.
pub fn document(text: &str) -> (r: Result<Xml, Error>)
    ensures
        match r {
            Ok(x) => document::spec_document(text@) matches Ok(v) && x@ == v,
            Err(e) => document::spec_document(text@) matches Err(ev) && e@ == ev,
        },
{
    let mut tags = Tags::new(text);
    let r = document::element(&mut tags);
    proof {
        document::lemma_build_total(
            tag::spec_tags(text@),
            2 * tag::spec_tags(text@).len() + 1,
            2 * tag::spec_tags(text@).len() + 1,
        );
    }
    r
}

/// Parse XML tags as a stream: the tag-level view of the input, for callers
/// that want declarations and diagnostics without building a tree.
pub fn tags(text: &str) -> (r: Tags<'_>)
    ensures
        r.wf(),
        r.peeked is None,
        r.diags@.len() == 0,
        r.lexer.src == text,
        r.lexer.line == 1,
        r.lexer.column == 1,
        r.gtags() == tag::spec_tags(text@),
{
    Tags::new(text)
}

} // verus!
