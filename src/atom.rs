//! Atoms, operators and the spans that tie them to their source text.
use vstd::prelude::*;

verus! {

/// The reserved words of the expression language.
#[derive(Debug, Clone, Copy, PartialEq, Eq, Hash, Structural)]
pub enum DSLKeywords {
    /// The end of the video.
    End,
    /// The start bound.
    From,
    /// The end bound.
    To,
}

/// The bytes that spell a keyword.
pub open spec fn keyword_text(k: DSLKeywords) -> Seq<u8> {
    match k {
        DSLKeywords::End => seq![101u8, 110u8, 100u8],
        DSLKeywords::From => seq![102u8, 114u8, 111u8, 109u8],
        DSLKeywords::To => seq![116u8, 111u8],
    }
}

impl DSLKeywords {
    /// The bytes that spell this keyword.
    pub fn token(&self) -> (r: Vec<u8>)
        ensures
            r@ == keyword_text(*self),
    {
        let r = match self {
            DSLKeywords::End => vec![101u8, 110u8, 100u8],
            DSLKeywords::From => vec![102u8, 114u8, 111u8, 109u8],
            DSLKeywords::To => vec![116u8, 111u8],
        };
        assert(r@ =~= keyword_text(*self));
        r
    }
}

/// A leaf of a time expression.
#[derive(Debug, Clone, Copy, PartialEq, Eq, Structural)]
pub enum DSLType {
    /// A frame count, written `100f`.
    FrameIndex(u64),
    /// A duration in whole milliseconds, written `1.5s`, `250ms` or `1:02.5`.
    Timestamp(u64),
    /// One of `end`, `from`, `to`.
    Keyword(DSLKeywords),
}

/// The three families of atoms; same-family atoms can be combined.
#[derive(Debug, Clone, Copy, PartialEq, Eq, Structural)]
pub enum AtomKind {
    Frame,
    Time,
    Word,
}

pub open spec fn kind_of(t: DSLType) -> AtomKind {
    match t {
        DSLType::FrameIndex(_) => AtomKind::Frame,
        DSLType::Timestamp(_) => AtomKind::Time,
        DSLType::Keyword(_) => AtomKind::Word,
    }
}

/// The numeric payload of a frame or time atom (zero for a keyword).
pub open spec fn magnitude(t: DSLType) -> u64 {
    match t {
        DSLType::FrameIndex(n) => n,
        DSLType::Timestamp(ms) => ms,
        DSLType::Keyword(_) => 0,
    }
}

/// An atom of the given numeric family with the given payload.
pub open spec fn with_magnitude(k: AtomKind, v: u64) -> DSLType {
    match k {
        AtomKind::Frame => DSLType::FrameIndex(v),
        _ => DSLType::Timestamp(v),
    }
}

/// A value together with the byte range of the source text it came from.
#[derive(Debug, Clone, Copy)]
pub struct DSLItem<T> {
    /// The value.
    pub content: T,
    /// Byte offset of the first byte in the source.
    pub offset: usize,
    /// Number of source bytes.
    pub length: usize,
}

impl<T> DSLItem<T> {
    /// Replaces the value and keeps the span.
    pub fn set(&mut self, content: T)
        ensures
            final(self).content == content,
            final(self).offset == old(self).offset,
            final(self).length == old(self).length,
    {
        self.content = content;
    }
}

/// The binary operators.
#[derive(Debug, Clone, Copy, PartialEq, Eq, Structural)]
pub enum DSLOp {
    /// `+`
    Add,
    /// `-`
    Sub,
}

pub open spec fn flip(op: DSLOp) -> DSLOp {
    match op {
        DSLOp::Add => DSLOp::Sub,
        DSLOp::Sub => DSLOp::Add,
    }
}

/// `+1` for `Add`, `-1` for `Sub`.
pub open spec fn sign(op: DSLOp) -> int {
    match op {
        DSLOp::Add => 1,
        DSLOp::Sub => -1,
    }
}

impl DSLOp {
    /// The opposite operator.
    pub fn reversed(&self) -> (r: DSLOp)
        ensures
            r == flip(*self),
    {
        match self {
            DSLOp::Add => DSLOp::Sub,
            DSLOp::Sub => DSLOp::Add,
        }
    }

    /// Turns this operator into its opposite.
    pub fn reverse(&mut self)
        ensures
            *final(self) == flip(*old(self)),
    {
        *self = self.reversed();
    }
}

} // verus!
