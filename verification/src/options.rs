//! Which comments are printed, and how.
use vstd::prelude::*;

verus! {

/// What becomes of legal comments.
#[derive(Debug)]
pub enum LegalComment {
    /// They are dropped.
    Omit,
    /// They are printed where they stand.
    Inline,
    /// They are moved to the end of the output.
    Eof,
    /// They are handed out, and the output links to the given path.
    Linked(String),
    /// They are handed out.
    External,
}

/// The kinds of comments to print.
#[derive(Debug)]
pub struct CommentOptions {
    /// Comments without a special meaning.
    pub normal: bool,
    /// Jsdoc comments.
    pub jsdoc: bool,
    /// Annotations.
    pub annotation: bool,
    /// Legal comments.
    pub legal: LegalComment,
}

impl CommentOptions {
    /// No comment is printed.
    pub fn disabled() -> (options: CommentOptions)
        ensures
            options.none_printed(),
    {
        CommentOptions { normal: false, jsdoc: false, annotation: false, legal: LegalComment::Omit }
    }

    /// Are these the options by which no comment is printed?
    pub open spec fn none_printed(self) -> bool {
        !self.normal && !self.jsdoc && !self.annotation && self.legal is Omit
    }

    /// Tells the disabled options from all others.
    pub fn is_disabled(&self) -> (b: bool)
        ensures
            b == self.none_printed(),
    {
        !self.normal && !self.jsdoc && !self.annotation && matches!(self.legal, LegalComment::Omit)
    }
}

/// The options of the printer.
#[derive(Debug)]
pub struct CodegenOptions {
    /// Leave out white space that the output can do without.
    pub minify: bool,
    /// The comments to print.
    pub comments: CommentOptions,
}

impl CodegenOptions {
    /// Are comments without a special meaning printed?
    #[verifier::allow_in_spec]
    pub fn print_normal_comment(&self) -> bool
        returns
            self.comments.normal,
    {
        self.comments.normal
    }

    /// Are jsdoc comments printed?
    #[verifier::allow_in_spec]
    pub fn print_jsdoc_comment(&self) -> bool
        returns
            self.comments.jsdoc,
    {
        self.comments.jsdoc
    }

    /// Are annotations printed?
    #[verifier::allow_in_spec]
    pub fn print_annotation_comment(&self) -> bool
        returns
            self.comments.annotation,
    {
        self.comments.annotation
    }

    /// Are legal comments printed where they stand?
    #[verifier::allow_in_spec]
    pub fn print_legal_comment(&self) -> bool
        returns
            self.comments.legal is Inline,
    {
        matches!(self.comments.legal, LegalComment::Inline)
    }
}

} // verus!
