use vstd::prelude::*;

verus! {

/// A byte range of the source: where it starts and how long it is.
#[derive(Clone, Copy, PartialEq, Eq, Debug, Structural)]
pub struct Span {
    pub pos: usize,
    pub len: usize,
}

impl Span {
    pub fn new(pos: usize, len: usize) -> (r: Span)
        ensures
            r.pos == pos,
            r.len == len,
    {
        Span { pos, len }
    }
}

/// A syntax error: a message and the span of the source that it is about.
#[derive(Clone, Debug)]
pub struct Error {
    pub message: String,
    pub span: Span,
}

impl Error {
    /// An error that is not yet tied to a place in the source.
    pub fn wrap(message: &str) -> (e: Error)
        ensures
            e.message@ == message@,
            e.span.pos == 0,
            e.span.len == 0,
    {
        Error { message: message.to_owned(), span: Span::new(0, 0) }
    }

    pub fn new(message: &str, span: Span) -> (e: Error)
        ensures
            e.message@ == message@,
            e.span == span,
    {
        Error { message: message.to_owned(), span }
    }
}

} // verus!
