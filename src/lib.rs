//! Lexical front end of the Quicklime language: turns a sequence of
//! characters into classified tokens, or into a diagnostic that points at
//! the offending region of the source.

use vstd::prelude::*;

pub mod position;
pub mod scanner;
pub mod text;
pub mod token;

verus! {

/// A diagnostic produced while scanning.
#[derive(Debug, PartialEq)]
pub struct Error {
    message: String,
    id: usize,
    kind: ErrorKind,
    index: usize,
    more_info: Option<String>,
    markup: Vec<Markup>,
}

/// What a scan does when a token cannot be read: stop at the first
/// diagnostic, or go on past the unreadable text and collect them all.
#[derive(Debug, PartialEq, Eq, Structural, Clone, Copy)]
pub enum ErrorPolicy {
    FailFast,
    CollectAll,
}

/// Severity of a diagnostic.
#[derive(Debug, PartialEq, Eq, Clone, Copy)]
pub enum ErrorKind {
    Error,
    Warning,
}

/// A region of the source that a diagnostic underlines.
#[derive(Debug, PartialEq)]
pub struct Markup {
    index: usize,
    length: usize,
    message: String,
    kind: MarkupKind,
}

/// Severity of a markup span.
#[derive(Debug, PartialEq, Eq, Clone, Copy)]
pub enum MarkupKind {
    Error,
    Warning,
    Note,
}

impl Markup {
    pub closed spec fn spec_index(&self) -> usize {
        self.index
    }

    pub closed spec fn spec_length(&self) -> usize {
        self.length
    }

    pub closed spec fn spec_message(&self) -> Seq<char> {
        self.message@
    }

    pub closed spec fn spec_kind(&self) -> MarkupKind {
        self.kind
    }

    /// Offset of the first character of the region.
    pub fn index(&self) -> (r: usize)
        ensures
            r == self.spec_index(),
    {
        self.index
    }

    /// Number of characters in the region.
    pub fn length(&self) -> (r: usize)
        ensures
            r == self.spec_length(),
    {
        self.length
    }

    /// Text shown beside the region.
    pub fn message(&self) -> (r: &str)
        ensures
            r@ == self.spec_message(),
    {
        self.message.as_str()
    }

    /// Severity of the region.
    pub fn kind(&self) -> (r: MarkupKind)
        ensures
            r == self.spec_kind(),
    {
        self.kind
    }
}

impl Error {
    pub closed spec fn spec_message(&self) -> Seq<char> {
        self.message@
    }

    pub closed spec fn spec_id(&self) -> usize {
        self.id
    }

    pub closed spec fn spec_kind(&self) -> ErrorKind {
        self.kind
    }

    pub closed spec fn spec_index(&self) -> usize {
        self.index
    }

    pub closed spec fn spec_has_more_info(&self) -> bool {
        self.more_info is Some
    }

    pub closed spec fn spec_markup(&self) -> Seq<Markup> {
        self.markup@
    }

    /// True when the diagnostic is an error with one markup span of severity
    /// error, which starts at the diagnostic's own offset.
    pub open spec fn is_simple(
        &self,
        message: Seq<char>,
        id: usize,
        index: usize,
        length: usize,
        markup: Seq<char>,
    ) -> bool {
        &&& self.spec_message() == message
        &&& self.spec_id() == id
        &&& self.spec_kind() == ErrorKind::Error
        &&& self.spec_index() == index
        &&& !self.spec_has_more_info()
        &&& self.spec_markup().len() == 1
        &&& self.spec_markup()[0].spec_index() == index
        &&& self.spec_markup()[0].spec_length() == length
        &&& self.spec_markup()[0].spec_message() == markup
        &&& self.spec_markup()[0].spec_kind() == MarkupKind::Error
    }

    /// An error diagnostic with one markup span of `length` characters at
    /// `index`.
    pub fn simple_error(message: &str, id: usize, index: usize, length: usize, markup: &str) -> (r:
        Self)
        ensures
            r.is_simple(message@, id, index, length, markup@),
    {
        let mut spans: Vec<Markup> = Vec::new();
        spans.push(
            Markup { index, length, message: markup.to_owned(), kind: MarkupKind::Error },
        );
        Error {
            message: message.to_owned(),
            id,
            index,
            more_info: None,
            kind: ErrorKind::Error,
            markup: spans,
        }
    }

    /// The diagnostic's message.
    pub fn message(&self) -> (r: &str)
        ensures
            r@ == self.spec_message(),
    {
        self.message.as_str()
    }

    /// Numeric code of the diagnostic.
    pub fn id(&self) -> (r: usize)
        ensures
            r == self.spec_id(),
    {
        self.id
    }

    /// Severity of the diagnostic.
    pub fn kind(&self) -> (r: ErrorKind)
        ensures
            r == self.spec_kind(),
    {
        self.kind
    }

    /// Offset of the offending region.
    pub fn index(&self) -> (r: usize)
        ensures
            r == self.spec_index(),
    {
        self.index
    }

    /// Further explanation, if any.
    pub fn more_info(&self) -> (r: Option<&str>)
        ensures
            r is Some == self.spec_has_more_info(),
    {
        match &self.more_info {
            Some(s) => Some(s.as_str()),
            None => None,
        }
    }

    /// The regions that the diagnostic underlines, in order.
    pub fn markup(&self) -> (r: &Vec<Markup>)
        ensures
            r@ == self.spec_markup(),
    {
        &self.markup
    }
}

} // verus!
