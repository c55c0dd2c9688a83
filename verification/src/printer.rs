//! The printer: the text it has produced, and how it adds white space and comments to it.
use vstd::prelude::*;
use vstd::string::*;
use vstd::utf8::*;

use crate::comment::{Comment, CommentKind};
use crate::options::CodegenOptions;
use crate::store::CommentStore;
use crate::text::{
    chars_of, ends_with, escaped, escaped_to, is_script_close_tag, lemma_encoded_push, lines_of,
    on_boundaries, source_text, split_lines, starts_with, text_between, trim_start, trimmed, viewed,
};

verus! {

/// `String::push`: the character is added to the end of the string.
pub assume_specification[ String::push ](s: &mut String, c: char)
    ensures
        final(s)@ == old(s)@.push(c),
;

/// A printer of source code.
pub struct Codegen<'a> {
    /// The options.
    pub options: CodegenOptions,
    /// The text that the comments are part of, if it is at hand.
    pub source_text: Option<&'a str>,
    /// The comments that have not been printed yet.
    pub comments: CommentStore,
    /// Is a property-key annotation among the comments that the printer was given?
    pub has_property_key_annotations: bool,
    /// Does the surrounding printer ask for no normal comments? Attached comments never count
    /// them, so nothing here reads it.
    pub suppress_normal_comments: bool,
    /// The output.
    pub code: String,
    /// The depth of indentation.
    pub indent: u32,
    /// Does a single space stand in for the next indentation?
    pub print_next_indent_as_space: bool,
}

/// What the printer has produced: the text, and whether a single space is to stand in for the
/// next indentation.
#[verifier::ext_equal]
pub struct Output {
    pub text: Seq<char>,
    pub pending_space: bool,
}

/// How white space is laid out.
#[verifier::ext_equal]
pub struct Layout {
    pub minify: bool,
    pub indent: nat,
}

/// What printing comments leaves as it is.
#[verifier::ext_equal]
pub struct Settings {
    pub options: CodegenOptions,
    pub source_text: Option<Seq<char>>,
    pub has_property_key_annotations: bool,
    pub suppress_normal_comments: bool,
    pub indent: u32,
}

impl Settings {
    /// The layout that these settings ask for.
    pub open spec fn layout(self) -> Layout {
        Layout { minify: self.options.minify, indent: self.indent as nat }
    }
}

impl Output {
    /// The output with a text behind it.
    pub open spec fn str(self, text: Seq<char>) -> Output {
        Output { text: self.text + text, ..self }
    }

    /// The output with a line break behind it.
    pub open spec fn newline(self) -> Output {
        Output { text: self.text.push('\n'), ..self }
    }

    /// The output with a space behind it, unless space is saved.
    pub open spec fn soft_space(self, layout: Layout) -> Output {
        if layout.minify {
            self
        } else {
            Output { text: self.text.push(' '), ..self }
        }
    }

    /// The output with the pending space behind it, if there is one.
    pub open spec fn spaced(self) -> Output {
        if self.pending_space {
            Output { text: self.text.push(' '), pending_space: false }
        } else {
            self
        }
    }

    /// The output without the pending space.
    pub open spec fn cleared(self) -> Output {
        Output { pending_space: false, ..self }
    }

    /// The output with an indentation behind it, or with the pending space that stands for
    /// one, unless space is saved.
    pub open spec fn indented(self, layout: Layout) -> Output {
        if layout.minify {
            self
        } else if self.pending_space {
            self.spaced()
        } else {
            self.str(Seq::new(layout.indent, |i: int| '\t'))
        }
    }

    /// Does the output end with this character?
    pub open spec fn ends(self, c: char) -> bool {
        self.text.len() > 0 && self.text.last() == c
    }

    /// A line of a block comment, indented anew unless it opens the comment, and with a line
    /// break behind it unless it closes the comment.
    pub open spec fn block_line(self, layout: Layout, line: Seq<char>) -> Output {
        let begun = if "/*"@.is_prefix_of(line) {
            self
        } else {
            self.indented(layout)
        };
        let written = begun.str(escaped(trimmed(line)));
        if "*/"@.is_suffix_of(line) {
            written
        } else {
            written.newline()
        }
    }

    /// The lines of a block comment.
    pub open spec fn block_lines(self, layout: Layout, lines: Seq<Seq<char>>) -> Output
        decreases lines.len(),
    {
        if lines.len() == 0 {
            self
        } else {
            self.block_lines(layout, lines.drop_last()).block_line(layout, lines.last())
        }
    }

    /// A comment. Nothing, where the source text is not at hand.
    pub open spec fn comment(
        self,
        layout: Layout,
        source: Option<Seq<char>>,
        comment: Comment,
    ) -> Output {
        match source {
            None => self,
            Some(text) => {
                let body = text_between(text, comment.span.start as int, comment.span.end as int);
                if comment.is_multiline_block() {
                    self.block_lines(layout, lines_of(body))
                } else {
                    self.str(escaped(body))
                }
            },
        }
    }

    /// What comes before the first comment of a group: a comment that stands on its own line
    /// in the source gets a line of its own; any other gets the pending space, or, at the
    /// start of a line, an indentation. Within a line nothing is added.
    pub open spec fn before_first(self, layout: Layout, comment: Comment) -> Output {
        if comment.preceded_by_newline() {
            if self.text.len() == 0 || self.ends('\t') {
                self
            } else if self.ends('\n') {
                self.indented(layout)
            } else {
                self.newline().indented(layout)
            }
        } else if self.pending_space {
            self.spaced()
        } else if self.text.len() == 0 || self.ends('\n') {
            self.indented(layout)
        } else {
            self
        }
    }

    /// What comes between two comments of a group.
    pub open spec fn before_next(self, layout: Layout, comment: Comment) -> Output {
        if comment.preceded_by_newline() {
            self.newline().indented(layout)
        } else if comment.is_legal() {
            self.newline()
        } else {
            self.soft_space(layout)
        }
    }

    /// A group of comments, up to what comes behind the last one.
    pub open spec fn comment_run(
        self,
        layout: Layout,
        source: Option<Seq<char>>,
        comments: Seq<Comment>,
    ) -> Output
        decreases comments.len(),
    {
        if comments.len() == 0 {
            self
        } else if comments.len() == 1 {
            self.before_first(layout, comments[0]).comment(layout, source, comments[0])
        } else {
            self.comment_run(layout, source, comments.drop_last()).before_next(
                layout,
                comments.last(),
            ).comment(layout, source, comments.last())
        }
    }

    /// A group of comments. A line break follows where the last comment is a line comment or
    /// had one behind it; otherwise a space is to stand in for the next indentation.
    pub open spec fn comments(
        self,
        layout: Layout,
        source: Option<Seq<char>>,
        comments: Seq<Comment>,
    ) -> Output {
        if comments.len() == 0 {
            self
        } else {
            let run = self.comment_run(layout, source, comments);
            if comments.last().is_line() || comments.last().followed_by_newline() {
                run.newline()
            } else {
                Output { pending_space: true, ..run }
            }
        }
    }
}

/// Can the comment be cut out of the source text, if that is at hand?
pub open spec fn printable(source: Option<Seq<char>>, comment: Comment) -> bool {
    source matches Some(text) ==> on_boundaries(
        text,
        comment.span.start as int,
        comment.span.end as int,
    )
}

/// Can all of the comments be cut out of the source text?
pub open spec fn all_printable(source: Option<Seq<char>>, comments: Seq<Comment>) -> bool {
    forall|i: int| 0 <= i < comments.len() ==> printable(source, #[trigger] comments[i])
}

/// The last byte of a character tells it, where it is an ASCII character.
proof fn lemma_last_byte_of_char(last: char, c: char)
    requires
        (c as u32) < 0x80,
    ensures
        encode_scalar(last as u32).len() > 0,
        last == c <==> encode_scalar(last as u32).last() == c as u8,
{
    let s = last as u32;
    char_is_scalar(last);
    if s <= 0x7F {
        assert((s & 0x7F) as u8 == s) by (bit_vector)
            requires
                s <= 0x7F,
        ;
        assert(encode_scalar(s).last() == leading_byte_width_1(s));
    } else {
        let low = (s & 0x3F) as u8;
        assert((0x80u8 | low) >= 0x80u8) by (bit_vector);
        assert(encode_scalar(s).last() == last_continuation_byte(s));
    }
}

/// The last byte of a text tells its last character, where that is an ASCII character.
proof fn lemma_last_byte(text: Seq<char>, c: char)
    requires
        text.len() > 0,
        (c as u32) < 0x80,
    ensures
        encode_utf8(text).len() > 0,
        text.last() == c <==> encode_utf8(text).last() == c as u8,
{
    lemma_encoded_push(text.drop_last(), text.last());
    assert(text.drop_last().push(text.last()) =~= text);
    lemma_last_byte_of_char(text.last(), c);
}

impl<'a> Codegen<'a> {
    /// What has been printed.
    pub open spec fn output(&self) -> Output {
        Output { text: self.code@, pending_space: self.print_next_indent_as_space }
    }

    /// What printing comments leaves as it is.
    pub open spec fn settings(&self) -> Settings {
        Settings {
            options: self.options,
            source_text: self.source(),
            has_property_key_annotations: self.has_property_key_annotations,
            suppress_normal_comments: self.suppress_normal_comments,
            indent: self.indent,
        }
    }

    /// The source text.
    pub open spec fn source(&self) -> Option<Seq<char>> {
        viewed(self.source_text)
    }

    /// How white space is laid out.
    pub open spec fn layout(&self) -> Layout {
        Layout { minify: self.options.minify, indent: self.indent as nat }
    }

    /// A printer that has printed nothing and has no comments to print.
    pub fn new(options: CodegenOptions, source_text: Option<&'a str>) -> (codegen: Codegen<'a>)
        ensures
            codegen.options == options,
            codegen.source_text == source_text,
            codegen.comments.wf(),
            codegen.comments@ == Seq::<Comment>::empty(),
            codegen.output() == (Output { text: seq![], pending_space: false }),
            codegen.settings() == (Settings {
                options,
                source_text: viewed(source_text),
                has_property_key_annotations: false,
                suppress_normal_comments: false,
                indent: 0,
            }),
    {
        let code: String = String::new();
        assert(code@ =~= seq![]);
        Codegen {
            options,
            source_text,
            comments: CommentStore::default(),
            has_property_key_annotations: false,
            suppress_normal_comments: false,
            code,
            indent: 0,
            print_next_indent_as_space: false,
        }
    }

    /// Prints a text.
    pub fn print_str(&mut self, text: &str)
        ensures
            final(self).output() == old(self).output().str(text@),
            final(self).settings() == old(self).settings(),
            final(self).comments == old(self).comments,
    {
        self.code.append(text);
    }

    /// Prints a space, unless space is saved.
    pub fn print_soft_space(&mut self)
        ensures
            final(self).output() == old(self).output().soft_space(old(self).layout()),
            final(self).settings() == old(self).settings(),
            final(self).comments == old(self).comments,
    {
        if !self.options.minify {
            self.code.push(' ');
        }
    }

    /// Prints a line break.
    pub fn print_hard_newline(&mut self)
        ensures
            final(self).output() == old(self).output().newline(),
            final(self).settings() == old(self).settings(),
            final(self).comments == old(self).comments,
    {
        self.code.push('\n');
    }

    /// Prints an indentation, or the pending space that stands for one, unless space is saved.
    pub fn print_indent(&mut self)
        ensures
            final(self).output() == old(self).output().indented(old(self).layout()),
            final(self).settings() == old(self).settings(),
            final(self).comments == old(self).comments,
    {
        if self.options.minify {
            return;
        }
        if self.print_next_indent_as_space {
            self.code.push(' ');
            self.print_next_indent_as_space = false;
            return;
        }
        let mut i: u32 = 0;
        assert(self.code@ + Seq::new(0, |k: int| '\t') =~= self.code@);
        while i < self.indent
            invariant
                i <= self.indent,
                self.code@ == old(self).code@ + Seq::new(i as nat, |k: int| '\t'),
                self.settings() == old(self).settings(),
                self.comments == old(self).comments,
                self.print_next_indent_as_space == old(self).print_next_indent_as_space,
            decreases self.indent - i,
        {
            self.code.push('\t');
            i = i + 1;
            assert(self.code@ =~= old(self).code@ + Seq::new(i as nat, |k: int| '\t'));
        }
    }

    /// The last byte of the output.
    pub fn last_byte(&self) -> (last: Option<u8>)
        ensures
            last == (if self.code@.len() == 0 {
                None::<u8>
            } else {
                Some(encode_utf8(self.code@).last())
            }),
            last == Some(10u8) <==> self.output().ends('\n'),
            last == Some(9u8) <==> self.output().ends('\t'),
    {
        let bytes: &[u8] = self.code.as_str().as_bytes();
        proof {
            if self.code@.len() > 0 {
                lemma_last_byte(self.code@, '\n');
                lemma_last_byte(self.code@, '\t');
            }
        }
        if bytes.len() == 0 {
            None
        } else {
            Some(bytes[bytes.len() - 1])
        }
    }

    /// Prints the pending space, and tells whether there was one.
    pub fn consume_pending_indent_space(&mut self) -> (consumed: bool)
        ensures
            consumed == old(self).output().pending_space,
            final(self).output() == old(self).output().spaced(),
            final(self).settings() == old(self).settings(),
            final(self).comments == old(self).comments,
    {
        if self.print_next_indent_as_space {
            self.code.push(' ');
            self.print_next_indent_as_space = false;
            true
        } else {
            false
        }
    }

    /// Drops the pending space.
    pub fn clear_pending_indent_space(&mut self)
        ensures
            final(self).output() == old(self).output().cleared(),
            final(self).settings() == old(self).settings(),
            final(self).comments == old(self).comments,
    {
        self.print_next_indent_as_space = false;
    }

    /// Prints a text so that it can stand inside a script element.
    pub fn print_str_escaping_script_close_tag(&mut self, text: &str)
        ensures
            final(self).output() == old(self).output().str(escaped(text@)),
            final(self).settings() == old(self).settings(),
            final(self).comments == old(self).comments,
    {
        let chars: Vec<char> = chars_of(text);
        let mut i: usize = 0;
        assert(self.code@ + escaped_to(text@, 0) =~= self.code@);
        while i < chars.len()
            invariant
                i <= chars@.len(),
                chars@ == text@,
                self.code@ == old(self).code@ + escaped_to(text@, i as int),
                self.settings() == old(self).settings(),
                self.comments == old(self).comments,
                self.print_next_indent_as_space == old(self).print_next_indent_as_space,
            decreases chars@.len() - i,
        {
            self.code.push(chars[i]);
            if is_script_close_tag(&chars, i) {
                self.code.push('\\');
            }
            assert(self.code@ =~= old(self).code@ + escaped_to(text@, i + 1));
            i = i + 1;
        }
    }

    /// Prints a comment: a line comment or one-line block as it is, a longer block line by
    /// line, each line indented anew.
    pub fn print_comment(&mut self, comment: &Comment)
        requires
            printable(old(self).source(), *comment),
        ensures
            final(self).output() == old(self).output().comment(
                old(self).layout(),
                old(self).source(),
                *comment,
            ),
            final(self).settings() == old(self).settings(),
            final(self).comments == old(self).comments,
    {
        let source: &str = match self.source_text {
            Some(text) => text,
            None => {
                return;
            },
        };
        let body: &str = source_text(comment.span, source);
        match comment.kind {
            CommentKind::Line | CommentKind::SingleLineBlock => {
                self.print_str_escaping_script_close_tag(body);
            },
            CommentKind::MultiLineBlock => {
                let lines: Vec<&str> = split_lines(body);
                let ghost all = lines_of(body@);
                let ghost layout = self.layout();
                let mut i: usize = 0;
                assert(all.take(0) =~= Seq::<Seq<char>>::empty());
                while i < lines.len()
                    invariant
                        i <= lines@.len(),
                        lines@.len() == all.len(),
                        forall|k: int| 0 <= k < lines@.len() ==> (#[trigger] lines@[k])@ == all[k],
                        layout == old(self).layout(),
                        self.layout() == layout,
                        self.settings() == old(self).settings(),
                        self.comments == old(self).comments,
                        self.output() == old(self).output().block_lines(layout, all.take(i as int)),
                    decreases lines@.len() - i,
                {
                    let line: &str = lines[i];
                    assert(line@ == all[i as int]);
                    if !starts_with(line, "/*") {
                        self.print_indent();
                    }
                    self.print_str_escaping_script_close_tag(trim_start(line));
                    if !ends_with(line, "*/") {
                        self.print_hard_newline();
                    }
                    assert(all.take(i + 1).drop_last() =~= all.take(i as int));
                    i = i + 1;
                }
                assert(all.take(all.len() as int) =~= all);
            },
        }
    }

    /// Prints a group of comments.
    pub fn print_comments(&mut self, comments: &[Comment])
        requires
            all_printable(old(self).source(), comments@),
        ensures
            final(self).output() == old(self).output().comments(
                old(self).layout(),
                old(self).source(),
                comments@,
            ),
            final(self).settings() == old(self).settings(),
            final(self).comments == old(self).comments,
    {
        if comments.len() == 0 {
            return;
        }
        let ghost layout = self.layout();
        let ghost source = self.source();
        let first: Comment = comments[0];
        if first.preceded_by_newline() {
            // Skip printing a line break if the comment is on a new line already.
            match self.last_byte() {
                None => {},
                Some(b) => {
                    if b == 10u8 {
                        self.print_indent();
                    } else if b == 9u8 {
                    } else {
                        self.print_hard_newline();
                        self.print_indent();
                    }
                },
            }
        } else if !self.consume_pending_indent_space() {
            // Only indent at the start of a line. In the middle of a line an indentation would
            // grow with every pass over the output.
            let last: Option<u8> = self.last_byte();
            let at_line_start: bool = match last {
                None => true,
                Some(b) => b == 10u8,
            };
            if at_line_start {
                self.print_indent();
            }
        }
        assert(self.output() == old(self).output().before_first(layout, first));
        self.print_comment(&first);
        let mut i: usize = 1;
        assert(comments@.take(1) =~= seq![first]);
        while i < comments.len()
            invariant
                1 <= i <= comments@.len(),
                layout == old(self).layout(),
                source == old(self).source(),
                all_printable(source, comments@),
                self.settings() == old(self).settings(),
                self.comments == old(self).comments,
                self.output() == old(self).output().comment_run(
                    layout,
                    source,
                    comments@.take(i as int),
                ),
            decreases comments@.len() - i,
        {
            let comment: Comment = comments[i];
            assert(printable(source, comments@[i as int]));
            assert(self.layout() == layout) by {
                assert(self.settings().layout() == old(self).settings().layout());
            }
            assert(self.source() == source) by {
                assert(self.settings().source_text == old(self).settings().source_text);
            }
            if comment.preceded_by_newline() {
                self.print_hard_newline();
                self.print_indent();
            } else if comment.is_legal() {
                self.print_hard_newline();
            } else {
                self.print_soft_space();
            }
            self.print_comment(&comment);
            assert(comments@.take(i + 1).drop_last() =~= comments@.take(i as int));
            i = i + 1;
        }
        assert(comments@.take(comments@.len() as int) =~= comments@);
        let last: Comment = comments[comments.len() - 1];
        if last.is_line() || last.followed_by_newline() {
            self.print_hard_newline();
        } else {
            self.print_next_indent_as_space = true;
        }
    }
}

} // verus!
