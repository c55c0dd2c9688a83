//! Source comments and the questions that printing and attachment ask of them.
use vstd::prelude::*;

verus! {

/// A range of byte offsets into the source text.
#[derive(Clone, Copy, Debug, PartialEq, Eq, Structural)]
pub struct Span {
    /// Offset of the first byte.
    pub start: u32,
    /// Offset just past the last byte.
    pub end: u32,
}

impl Span {
    /// A span from `start` to `end`.
    #[verifier::allow_in_spec]
    pub fn new(start: u32, end: u32) -> Span
        returns
            (Span { start, end }),
    {
        Span { start, end }
    }

    /// The number of bytes covered.
    pub fn size(self) -> (size: u32)
        requires
            self.start <= self.end,
        ensures
            size == self.end - self.start,
    {
        self.end - self.start
    }
}

/// How a comment is delimited.
#[derive(Clone, Copy, Debug, PartialEq, Eq, Structural)]
pub enum CommentKind {
    /// `// text`
    Line,
    /// `/* text */` on one line.
    SingleLineBlock,
    /// `/* text */` that contains line breaks.
    MultiLineBlock,
}

/// On which side of a token a comment stands.
#[derive(Clone, Copy, Debug, PartialEq, Eq, Structural)]
pub enum CommentPosition {
    /// Before a token.
    Leading,
    /// After a token, on the token's line.
    Trailing,
}

/// What a comment says to tools that read it.
#[derive(Clone, Copy, Debug, PartialEq, Eq, Structural)]
pub enum CommentContent {
    /// Nothing special.
    Plain,
    /// `/* @license */`, `/* @preserve */`, or a comment that starts with `//!` or `/*!`.
    Legal,
    /// `/** jsdoc */`
    Jsdoc,
    /// A jsdoc that holds a legal annotation.
    JsdocLegal,
    /// `/* #__PURE__ */` on a call or a `new`.
    Pure,
    /// `/* #__PURE__ */` in a place where it has no effect.
    PureNotApplied,
    /// `/* #__NO_SIDE_EFFECTS__ */`
    NoSideEffects,
    /// A webpack magic comment.
    Webpack,
    /// `/* @vite-ignore */`
    Vite,
    /// A coverage tool's `ignore`.
    CoverageIgnore,
    /// A turbopack magic comment.
    Turbopack,
    /// A coverage tool's `ignore file`, which stays valid without the node it precedes.
    CoverageIgnoreFile,
    /// `/* @__KEY__ */`: the literal that follows is a property name.
    PropertyKey,
}

/// Whether line breaks surround a comment.
#[derive(Clone, Copy, Debug, PartialEq, Eq, Structural)]
pub struct CommentNewlines {
    /// A line break comes right before.
    pub leading: bool,
    /// A line break comes right after.
    pub trailing: bool,
}

/// A comment of the source text.
#[derive(Clone, Copy, Debug, PartialEq, Eq, Structural)]
pub struct Comment {
    /// The comment's text, delimiters and all.
    pub span: Span,
    /// The source boundary that owns the comment: where the token that follows a leading
    /// comment starts, or where the token that a trailing comment follows ends.
    pub attached_to: u32,
    /// Line or block.
    pub kind: CommentKind,
    /// Leading or trailing.
    pub position: CommentPosition,
    /// Line breaks around the comment.
    pub newlines: CommentNewlines,
    /// The comment's meaning.
    pub content: CommentContent,
}

impl Comment {
    /// Is this a `//` comment?
    #[verifier::allow_in_spec]
    pub fn is_line(self) -> bool
        returns
            self.kind == CommentKind::Line,
    {
        self.kind == CommentKind::Line
    }

    /// Is this a block comment that contains line breaks?
    #[verifier::allow_in_spec]
    pub fn is_multiline_block(self) -> bool
        returns
            self.kind == CommentKind::MultiLineBlock,
    {
        self.kind == CommentKind::MultiLineBlock
    }

    /// Does the comment stand before a token?
    #[verifier::allow_in_spec]
    pub fn is_leading(self) -> bool
        returns
            self.position == CommentPosition::Leading,
    {
        self.position == CommentPosition::Leading
    }

    /// Is the comment free of any special meaning?
    #[verifier::allow_in_spec]
    pub fn is_normal(self) -> bool
        returns
            self.content == CommentContent::Plain,
    {
        self.content == CommentContent::Plain
    }

    /// Does the comment carry a tool's annotation?
    #[verifier::allow_in_spec]
    pub fn is_annotation(self) -> bool
        returns
            !(self.content == CommentContent::Plain || self.content == CommentContent::Legal
                || self.content == CommentContent::Jsdoc || self.content
                == CommentContent::JsdocLegal),
    {
        self.content != CommentContent::Plain && self.content != CommentContent::Legal
            && self.content != CommentContent::Jsdoc && self.content != CommentContent::JsdocLegal
    }

    /// Is this a leading jsdoc comment?
    #[verifier::allow_in_spec]
    pub fn is_jsdoc(self) -> bool
        returns
            (self.content == CommentContent::Jsdoc || self.content == CommentContent::JsdocLegal)
                && self.position == CommentPosition::Leading,
    {
        (self.content == CommentContent::Jsdoc || self.content == CommentContent::JsdocLegal)
            && self.is_leading()
    }

    /// Is this a leading comment that must be kept for legal reasons?
    #[verifier::allow_in_spec]
    pub fn is_legal(self) -> bool
        returns
            (self.content == CommentContent::Legal || self.content == CommentContent::JsdocLegal)
                && self.position == CommentPosition::Leading,
    {
        (self.content == CommentContent::Legal || self.content == CommentContent::JsdocLegal)
            && self.is_leading()
    }

    /// Is this an applied `@__PURE__`?
    #[verifier::allow_in_spec]
    pub fn is_pure(self) -> bool
        returns
            self.content == CommentContent::Pure,
    {
        self.content == CommentContent::Pure
    }

    /// Is this an applied `@__NO_SIDE_EFFECTS__`?
    #[verifier::allow_in_spec]
    pub fn is_no_side_effects(self) -> bool
        returns
            self.content == CommentContent::NoSideEffects,
    {
        self.content == CommentContent::NoSideEffects
    }

    /// Is this a leading `@__KEY__`?
    #[verifier::allow_in_spec]
    pub fn is_property_key_annotation(self) -> bool
        returns
            self.content == CommentContent::PropertyKey && self.position
                == CommentPosition::Leading,
    {
        self.content == CommentContent::PropertyKey && self.is_leading()
    }

    /// Is this a leading, file-level coverage annotation?
    #[verifier::allow_in_spec]
    pub fn is_coverage_ignore_file(self) -> bool
        returns
            self.content == CommentContent::CoverageIgnoreFile && self.position
                == CommentPosition::Leading,
    {
        self.content == CommentContent::CoverageIgnoreFile && self.is_leading()
    }

    /// Does a line break come right before the comment?
    #[verifier::allow_in_spec]
    pub fn preceded_by_newline(self) -> bool
        returns
            self.newlines.leading,
    {
        self.newlines.leading
    }

    /// Does a line break come right after the comment?
    #[verifier::allow_in_spec]
    pub fn followed_by_newline(self) -> bool
        returns
            self.newlines.trailing,
    {
        self.newlines.trailing
    }

    /// The same comment with the line break after it stated as `followed`.
    pub open spec fn with_newline_after(self, followed: bool) -> Comment {
        Comment {
            newlines: CommentNewlines { leading: self.newlines.leading, trailing: followed },
            ..self
        }
    }

    /// States whether a line break comes right after the comment.
    pub fn set_followed_by_newline(&mut self, followed: bool)
        ensures
            *final(self) == old(self).with_newline_after(followed),
    {
        self.newlines = CommentNewlines { leading: self.newlines.leading, trailing: followed };
    }

    /// Does the comment steer tree shaking? Such comments are printed by the nodes they mark,
    /// never as ordinary comments.
    #[verifier::allow_in_spec]
    pub fn is_semantic(self) -> bool
        returns
            self.content == CommentContent::Pure || self.content == CommentContent::NoSideEffects,
    {
        self.is_pure() || self.is_no_side_effects()
    }
}

} // verus!
