//! Legal comments that are moved to the end of the output, or handed out.
use vstd::prelude::*;
use vstd::string::*;

use std::collections::HashSet;

use rustc_hash::{FxBuildHasher, FxHashSet};

use crate::attachments::Program;
use crate::comment::Comment;
use crate::options::LegalComment;
use crate::printer::{all_printable, Codegen, Layout, Output};
use crate::text::{
    ends_with, lines_of, on_boundaries, source_text, split_lines, starts_with, text_between,
    trim_start, trimmed,
};

verus! {

/// `rustc_hash::FxBuildHasher`.
#[verifier::external_type_specification]
#[verifier::external_body]
pub struct ExFxBuildHasher(FxBuildHasher);

/// The texts that a `rustc_hash::FxHashSet` holds.
pub uninterp spec fn texts(set: HashSet<String, FxBuildHasher>) -> Set<Seq<char>>;

/// `rustc_hash::FxHashSet::default`: a set of nothing.
#[verifier::external_body]
fn no_texts() -> (set: HashSet<String, FxBuildHasher>)
    ensures
        texts(set) == Set::<Seq<char>>::empty(),
{
    FxHashSet::default()
}

/// `rustc_hash::FxHashSet::insert`: the text is in the set afterwards, beside those that were
/// there, and the result tells whether it is new.
#[verifier::external_body]
fn insert_text(set: &mut HashSet<String, FxBuildHasher>, text: String) -> (new: bool)
    ensures
        new == !texts(*old(set)).contains(text@),
        texts(*final(set)) == texts(*old(set)).insert(text@),
{
    set.insert(text)
}

/// A line of a block comment with one tab in place of its own indentation.
pub open spec fn tabbed_line(line: Seq<char>) -> Seq<char> {
    let begun: Seq<char> = if "/*"@.is_prefix_of(line) {
        seq![]
    } else {
        seq!['\t']
    };
    if "*/"@.is_suffix_of(line) {
        begun + trimmed(line)
    } else {
        (begun + trimmed(line)).push('\n')
    }
}

/// The lines of a block comment, each with one tab in place of its own indentation.
pub open spec fn tabbed(lines: Seq<Seq<char>>) -> Seq<char>
    decreases lines.len(),
{
    if lines.len() == 0 {
        seq![]
    } else {
        tabbed(lines.drop_last()) + tabbed_line(lines.last())
    }
}

/// The words by which legal comments are told apart: how a block comment is indented does not
/// count.
pub open spec fn legal_text(text: Seq<char>, comment: Comment) -> Seq<char> {
    let body = text_between(text, comment.span.start as int, comment.span.end as int);
    if comment.is_multiline_block() {
        tabbed(lines_of(body))
    } else {
        body
    }
}

/// Does one of the comments say, as a legal comment, the given words?
pub open spec fn says(text: Seq<char>, comments: Seq<Comment>, words: Seq<char>) -> bool {
    exists|i: int|
        0 <= i < comments.len() && (#[trigger] comments[i]).is_legal() && legal_text(
            text,
            comments[i],
        ) == words
}

/// The legal comments, without those that repeat an earlier one.
pub open spec fn distinct_legal(text: Seq<char>, comments: Seq<Comment>) -> Seq<Comment>
    decreases comments.len(),
{
    if comments.len() == 0 {
        seq![]
    } else {
        let before = distinct_legal(text, comments.drop_last());
        let last = comments.last();
        if last.is_legal() && !says(text, comments.drop_last(), legal_text(text, last)) {
            before.push(last)
        } else {
            before
        }
    }
}

/// What is handed out of the distinct legal comments.
pub open spec fn handed_over(legal: LegalComment, comments: Seq<Comment>) -> Seq<Comment> {
    match legal {
        LegalComment::Linked(_) | LegalComment::External => comments,
        _ => seq![],
    }
}

impl Output {
    /// Comments with a line break behind each.
    pub open spec fn listed_comments(
        self,
        layout: Layout,
        source: Option<Seq<char>>,
        comments: Seq<Comment>,
    ) -> Output
        decreases comments.len(),
    {
        if comments.len() == 0 {
            self
        } else {
            self.listed_comments(layout, source, comments.drop_last()).comment(
                layout,
                source,
                comments.last(),
            ).newline()
        }
    }

    /// What stands at the end of the output for the distinct legal comments.
    pub open spec fn legal_end(
        self,
        layout: Layout,
        source: Option<Seq<char>>,
        legal: LegalComment,
        comments: Seq<Comment>,
    ) -> Output {
        if comments.len() == 0 {
            self
        } else {
            match legal {
                LegalComment::Eof => self.newline().cleared().listed_comments(
                    layout,
                    source,
                    comments,
                ),
                LegalComment::Linked(path) => self.newline().str(
                    "/*! For license information please see "@,
                ).str(path@).str(" */"@),
                _ => self,
            }
        }
    }
}

/// The words of a legal comment.
fn words_of(text: &str, comment: Comment) -> (words: String)
    requires
        on_boundaries(text@, comment.span.start as int, comment.span.end as int),
    ensures
        words@ == legal_text(text@, comment),
{
    let body: &str = source_text(comment.span, text);
    let mut words: String = String::new();
    if !comment.is_multiline_block() {
        words.append(body);
        assert(words@ =~= body@);
        return words;
    }
    let lines: Vec<&str> = split_lines(body);
    let ghost all = lines_of(body@);
    let mut i: usize = 0;
    assert(all.take(0) =~= Seq::<Seq<char>>::empty());
    while i < lines.len()
        invariant
            i <= lines@.len(),
            lines@.len() == all.len(),
            forall|k: int| 0 <= k < lines@.len() ==> (#[trigger] lines@[k])@ == all[k],
            words@ == tabbed(all.take(i as int)),
        decreases lines@.len() - i,
    {
        let line: &str = lines[i];
        let ghost before = words@;
        assert(line@ == all[i as int]);
        if !starts_with(line, "/*") {
            words.push('\t');
        }
        words.append(trim_start(line));
        if !ends_with(line, "*/") {
            words.push('\n');
        }
        assert(words@ =~= before + tabbed_line(line@));
        assert(all.take(i + 1).drop_last() =~= all.take(i as int));
        i = i + 1;
    }
    assert(all.take(all.len() as int) =~= all);
    words
}

/// The legal comments, without those that repeat an earlier one.
pub fn distinct_legal_comments(text: &str, comments: &[Comment]) -> (kept: Vec<Comment>)
    requires
        forall|i: int|
            0 <= i < comments@.len() && (#[trigger] comments@[i]).is_legal() ==> on_boundaries(
                text@,
                comments@[i].span.start as int,
                comments@[i].span.end as int,
            ),
    ensures
        kept@ == distinct_legal(text@, comments@),
{
    let mut set: HashSet<String, FxBuildHasher> = no_texts();
    let mut kept: Vec<Comment> = Vec::new();
    let mut i: usize = 0;
    assert(comments@.take(0) =~= Seq::<Comment>::empty());
    while i < comments.len()
        invariant
            i <= comments@.len(),
            forall|k: int|
                0 <= k < comments@.len() && (#[trigger] comments@[k]).is_legal() ==> on_boundaries(
                    text@,
                    comments@[k].span.start as int,
                    comments@[k].span.end as int,
                ),
            forall|words: Seq<char>| #[trigger]
                texts(set).contains(words) <==> says(text@, comments@.take(i as int), words),
            kept@ == distinct_legal(text@, comments@.take(i as int)),
        decreases comments@.len() - i,
    {
        let comment: Comment = comments[i];
        let ghost done = comments@.take(i as int);
        let ghost more = comments@.take(i + 1);
        let ghost known = texts(set);
        assert(more.drop_last() =~= done);
        assert(more.last() == comment);
        if comment.is_legal() {
            let words: String = words_of(text, comment);
            let ghost w = words@;
            if insert_text(&mut set, words) {
                kept.push(comment);
            }
            assert forall|v: Seq<char>| #[trigger] texts(set).contains(v) <==> says(
                text@,
                more,
                v,
            ) by {
                lemma_says_more(text@, more, v);
                assert(known.contains(v) <==> says(text@, done, v));
            }
        } else {
            assert forall|v: Seq<char>| #[trigger] texts(set).contains(v) <==> says(
                text@,
                more,
                v,
            ) by {
                lemma_says_more(text@, more, v);
            }
        }
        i = i + 1;
    }
    assert(comments@.take(comments@.len() as int) =~= comments@);
    kept
}

/// Words are said by the last comment or before it.
pub proof fn lemma_says_more(text: Seq<char>, comments: Seq<Comment>, words: Seq<char>)
    requires
        comments.len() > 0,
    ensures
        says(text, comments, words) <==> says(text, comments.drop_last(), words) || (
        comments.last().is_legal() && legal_text(text, comments.last()) == words),
{
    let rest = comments.drop_last();
    if says(text, rest, words) {
        let i = choose|i: int|
            0 <= i < rest.len() && (#[trigger] rest[i]).is_legal() && legal_text(text, rest[i])
                == words;
        assert(comments[i] == rest[i]);
    }
    if says(text, comments, words) {
        let i = choose|i: int|
            0 <= i < comments.len() && (#[trigger] comments[i]).is_legal() && legal_text(
                text,
                comments[i],
            ) == words;
        if i < rest.len() {
            assert(rest[i] == comments[i]);
        }
    }
    if comments.last().is_legal() && legal_text(text, comments.last()) == words {
        assert(comments[comments.len() - 1].is_legal());
    }
}

impl<'a> Codegen<'a> {
    /// Moves the distinct legal comments of a program to where the options want them, and
    /// returns those that the options want handed out.
    pub fn handle_eof_linked_or_external_comments(&mut self, program: &Program) -> (handed_out: Vec<
        Comment,
    >)
        requires
            !(old(self).options.comments.legal is Omit || old(self).options.comments.legal is Inline)
                ==> forall|i: int|
                0 <= i < program.comments@.len() && (#[trigger] program.comments@[i]).is_legal()
                    ==> on_boundaries(
                    program.source_text@,
                    program.comments@[i].span.start as int,
                    program.comments@[i].span.end as int,
                ),
            old(self).options.comments.legal is Eof ==> all_printable(
                old(self).source(),
                distinct_legal(program.source_text@, program.comments@),
            ),
        ensures
            final(self).settings() == old(self).settings(),
            final(self).comments == old(self).comments,
            ({
                let legal = old(self).options.comments.legal;
                let distinct = distinct_legal(program.source_text@, program.comments@);
                &&& handed_out@ == (if legal is Linked || legal is External {
                    distinct
                } else {
                    Seq::<Comment>::empty()
                })
                &&& final(self).output() == old(self).output().legal_end(
                    old(self).layout(),
                    old(self).source(),
                    legal,
                    distinct,
                )
                &&& handed_out@ == handed_over(legal, distinct)
            }),
    {
        if matches!(self.options.comments.legal, LegalComment::Omit | LegalComment::Inline) {
            return Vec::new();
        }
        let comments: Vec<Comment> = distinct_legal_comments(program.source_text, program.comments);
        if comments.len() == 0 {
            return Vec::new();
        }
        let linked: Option<String> = match &self.options.comments.legal {
            LegalComment::Linked(path) => Some(path.clone()),
            _ => None,
        };
        match linked {
            Some(path) => {
                self.print_hard_newline();
                self.print_str("/*! For license information please see ");
                self.print_str(path.as_str());
                self.print_str(" */");
                comments
            },
            None => {
                if matches!(self.options.comments.legal, LegalComment::External) {
                    return comments;
                }
                self.print_hard_newline();
                // All comments at the end are laid out alike.
                self.clear_pending_indent_space();
                self.print_listed(&comments);
                Vec::new()
            },
        }
    }

    /// Prints comments with a line break behind each.
    fn print_listed(&mut self, comments: &Vec<Comment>)
        requires
            all_printable(old(self).source(), comments@),
        ensures
            final(self).output() == old(self).output().listed_comments(
                old(self).layout(),
                old(self).source(),
                comments@,
            ),
            final(self).settings() == old(self).settings(),
            final(self).comments == old(self).comments,
    {
        let ghost layout = self.layout();
        let ghost source = self.source();
        let mut i: usize = 0;
        assert(comments@.take(0) =~= Seq::<Comment>::empty());
        while i < comments.len()
            invariant
                i <= comments@.len(),
                layout == old(self).layout(),
                source == old(self).source(),
                all_printable(source, comments@),
                self.settings() == old(self).settings(),
                self.comments == old(self).comments,
                self.output() == old(self).output().listed_comments(
                    layout,
                    source,
                    comments@.take(i as int),
                ),
            decreases comments@.len() - i,
        {
            assert(self.settings().source_text == old(self).settings().source_text);
            assert(self.settings().layout() == old(self).settings().layout());
            let comment: Comment = comments[i];
            self.print_comment(&comment);
            self.print_hard_newline();
            assert(comments@.take(i + 1).drop_last() =~= comments@.take(i as int));
            i = i + 1;
        }
        assert(comments@.take(comments@.len() as int) =~= comments@);
    }
}

} // verus!
