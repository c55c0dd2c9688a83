//! The places of the output at which comments are printed.
use vstd::prelude::*;

use crate::comment::{Comment, CommentContent, Span};
use crate::list::{by_start, start_le, CommentList};
use crate::order::{law_sort_by_permutes, lemma_sort_by_elements, sort_by};
use crate::pending::{
    any, at, decides, except, leading, lemma_filter_all, lemma_filter_elements, lemma_filter_none,
    lemma_filter_some, semantic, some_of, store_le, trailing, within,
};
use crate::pages::steers;
use crate::printer::{all_printable, printable, Codegen, Layout, Output, Settings};
use crate::questions::{asked_for, law_filed_as_asked, leads};
use crate::selection::{
    attached, beside, claimed, html, is_attached, is_known_html, is_retained,
    lasting, lemma_some_of_filter, line, normal, preserve_when_orphaned, property_key, retained,
    worth_trailing, AnnotationKind,
};
use crate::store::{any_matching, CommentStore};
use crate::text::viewed;

verus! {

impl Output {
    /// The output as the next token finds it within a line: with the pending space printed,
    /// unless a line has just been ended.
    pub open spec fn glued(self) -> Output {
        if self.ends('\n') {
            self
        } else {
            self.spaced()
        }
    }

    /// The output as the next token of an expression finds it: indented where a line has just
    /// been ended, otherwise with the pending space printed.
    pub open spec fn resumed(self, layout: Layout) -> Output {
        if self.ends('\n') {
            self.indented(layout)
        } else {
            self.spaced()
        }
    }

    /// Comments with a space between them.
    pub open spec fn spaced_comments(
        self,
        layout: Layout,
        source: Option<Seq<char>>,
        comments: Seq<Comment>,
    ) -> Output
        decreases comments.len(),
    {
        if comments.len() == 0 {
            self
        } else {
            let before = self.spaced_comments(layout, source, comments.drop_last());
            let at = if comments.len() == 1 {
                before
            } else {
                before.str(" "@)
            };
            at.comment(layout, source, comments.last())
        }
    }

    /// Comments on lines of their own, up to the line break behind the last one.
    pub open spec fn stacked_comments(
        self,
        layout: Layout,
        source: Option<Seq<char>>,
        comments: Seq<Comment>,
    ) -> Output
        decreases comments.len(),
    {
        if comments.len() == 0 {
            self
        } else {
            self.stacked_comments(layout, source, comments.drop_last()).newline().indented(
                layout,
            ).comment(layout, source, comments.last())
        }
    }

    /// Comments that have lost the nodes they stood at: apart from what comes before, and with
    /// a line break behind them.
    pub open spec fn left_over(
        self,
        layout: Layout,
        source: Option<Seq<char>>,
        comments: Seq<Comment>,
    ) -> Output {
        if comments.len() == 0 {
            self
        } else if !self.ends('\n') && !comments[0].preceded_by_newline() {
            self.soft_space(layout).comments(layout, source, closed_off(comments))
        } else {
            self.comments(layout, source, closed_off(comments))
        }
    }
}

impl Output {
    /// A group of comments within a line. Nothing, where there is no comment.
    pub open spec fn group_glued(
        self,
        layout: Layout,
        source: Option<Seq<char>>,
        comments: Seq<Comment>,
    ) -> Output {
        if comments.len() == 0 {
            self
        } else {
            self.comments(layout, source, comments).glued()
        }
    }

    /// A group of comments inside an expression. Nothing, where there is no comment.
    pub open spec fn group_resumed(
        self,
        layout: Layout,
        source: Option<Seq<char>>,
        comments: Seq<Comment>,
    ) -> Output {
        if comments.len() == 0 {
            self
        } else {
            self.comments(layout, source, comments).resumed(layout)
        }
    }

    /// A group of comments behind a token. Nothing, where there is no comment.
    pub open spec fn group_behind(
        self,
        layout: Layout,
        source: Option<Seq<char>>,
        comments: Seq<Comment>,
    ) -> Output {
        if comments.len() == 0 {
            self
        } else {
            self.soft_space(layout).comments(layout, source, comments).cleared()
        }
    }
}

/// The comments with a line break stated behind the last one.
pub open spec fn closed_off(comments: Seq<Comment>) -> Seq<Comment> {
    if comments.len() == 0 {
        comments
    } else {
        comments.drop_last().push(comments.last().with_newline_after(true))
    }
}

/// States a line break behind the last comment.
fn close_off(comments: &mut CommentList)
    ensures
        final(comments)@ == closed_off(old(comments)@),
{
    match comments.pop() {
        Some(last) => {
            let mut last: Comment = last;
            last.set_followed_by_newline(true);
            comments.push(last);
        },
        None => {},
    }
}

impl<'a> Codegen<'a> {
    /// Files the comments that the options let through, for printing.
    pub fn build_comments(&mut self, comments: &[Comment])
        ensures
            old(self).options.comments.none_printed() ==> *final(self) == *old(self),
            !old(self).options.comments.none_printed() ==> {
                &&& final(self).comments@ == sort_by(
                    comments@.filter(retained(old(self).options)),
                    store_le(),
                )
                &&& final(self).has_property_key_annotations == (
                old(self).has_property_key_annotations || some_of(
                    comments@.filter(retained(old(self).options)),
                    property_key(),
                ))
                &&& final(self).settings() == (Settings {
                    has_property_key_annotations: final(self).has_property_key_annotations,
                    ..old(self).settings()
                })
            },
            final(self).output() == old(self).output(),
            !old(self).options.comments.none_printed() ==> (final(self).has_property_key_annotations
                <==> old(self).has_property_key_annotations || (
            old(self).options.comments.annotation && exists|i: int|
                0 <= i < comments@.len() && leads(#[trigger] comments@[i]) && comments@[i].content
                    == CommentContent::PropertyKey)),
            !old(self).options.comments.none_printed() ==> forall|c: Comment| #[trigger]
                final(self).comments@.contains(c) <==> comments@.contains(c) && asked_for(
                    old(self).options,
                    c,
                ),
            !old(self).options.comments.none_printed() || old(self).comments.wf()
                ==> final(self).comments.wf(),
    {
        if self.options.comments.is_disabled() {
            return;
        }
        let ghost keep = retained(self.options);
        let mut kept: Vec<Comment> = Vec::new();
        let mut has_key: bool = self.has_property_key_annotations;
        let mut i: usize = 0;
        proof {
            reveal(Seq::filter);
            assert(comments@.take(0) =~= Seq::<Comment>::empty());
        }
        while i < comments.len()
            invariant
                i <= comments@.len(),
                keep == retained(self.options),
                *self == *old(self),
                kept@ == comments@.take(i as int).filter(keep),
                has_key == (self.has_property_key_annotations || some_of(kept@, property_key())),
            decreases comments@.len() - i,
        {
            let comment: Comment = comments[i];
            let ghost before = kept@;
            proof {
                reveal(Seq::filter);
                assert(comments@.take(i + 1).drop_last() =~= comments@.take(i as int));
            }
            if is_retained(&self.options, comment) {
                if comment.is_property_key_annotation() {
                    has_key = true;
                }
                kept.push(comment);
                proof {
                    let p = property_key();
                    assert(kept@[before.len() as int] == comment);
                    if some_of(before, p) {
                        let k = choose|k: int| 0 <= k < before.len() && p(#[trigger] before[k]);
                        assert(p(kept@[k]));
                    }
                    if some_of(kept@, p) && !p(comment) {
                        let k = choose|k: int| 0 <= k < kept@.len() && p(#[trigger] kept@[k]);
                        assert(p(before[k]));
                    }
                }
            }
            i = i + 1;
        }
        assert(comments@.take(comments@.len() as int) =~= comments@);
        self.has_property_key_annotations = has_key;
        let ghost options = self.options;
        proof {
            let both = |c: Comment| keep(c) && property_key()(c);
            lemma_some_of_filter(comments@, keep, property_key(), both);
            if some_of(comments@, both) {
                let k = choose|k: int| 0 <= k < comments@.len() && both(#[trigger] comments@[k]);
                assert(leads(comments@[k]));
            }
            if options.comments.annotation && exists|k: int|
                0 <= k < comments@.len() && leads(#[trigger] comments@[k]) && comments@[k].content
                    == CommentContent::PropertyKey {
                let k = choose|k: int|
                    0 <= k < comments@.len() && leads(#[trigger] comments@[k])
                        && comments@[k].content == CommentContent::PropertyKey;
                assert(both(comments@[k]));
            }
        }
        self.comments = CommentStore::build(&mut kept);
        assert forall|c: Comment| #[trigger] self.comments@.contains(c) <==> comments@.contains(c)
            && asked_for(options, c) by {
            law_filed_as_asked(options, comments@, c);
        }
    }

    /// Is there a comment at the boundary other than an annotation that steers tree shaking?
    pub fn has_comment(&self, start: u32) -> (found: bool)
        requires
            self.comments.wf(),
        ensures
            found == some_of(self.comments@, at(start, except(semantic()))),
            found <==> exists|i: int|
                0 <= i < self.comments@.len() && (#[trigger] self.comments@[i]).attached_to == start && !steers(
                    self.comments@[i],
                ),
    {
        self.comments.has_non_semantic_at(start)
    }

    /// Prints the annotation of a node that starts at `start`: in the words of the source, with
    /// the comments beside it, where they are at hand and can stand there; in the canonical
    /// words otherwise. An annotation of the other kind is left for a node of its own.
    pub fn print_annotation_comment(
        &mut self,
        start: u32,
        kind: AnnotationKind,
        newline_after: bool,
    )
        requires
            old(self).comments.wf(),
            some_of(old(self).comments@, at(start, leading(claimed(kind, newline_after))))
                ==> all_printable(
                old(self).source(),
                old(self).comments@.filter(at(start, leading(beside(kind, newline_after)))),
            ),
        ensures
            final(self).comments.wf(),
            final(self).settings() == old(self).settings(),
            if old(self).source() is Some && some_of(
                old(self).comments@,
                at(start, leading(claimed(kind, newline_after))),
            ) {
                let printed = old(self).output().spaced_comments(
                    old(self).layout(),
                    old(self).source(),
                    by_start(
                        old(self).comments@.filter(
                            at(start, leading(beside(kind, newline_after))),
                        ),
                    ),
                );
                &&& final(self).comments@ == old(self).comments@.filter(
                    except(at(start, leading(beside(kind, newline_after)))),
                )
                &&& final(self).output() == (if newline_after {
                    printed.newline()
                } else {
                    printed.str(" "@)
                })
            } else {
                &&& final(self).comments@ == old(self).comments@
                &&& final(self).output() == old(self).output().str(
                    kind.canonical_text(newline_after),
                )
            },
            final(self).page() == old(self).page().annotated(
                old(self).layout(),
                old(self).source(),
                start,
                kind,
                newline_after,
            ),
    {
        let ghost all = self.comments@;
        let claims = |c: &Comment| -> (b: bool)
            ensures
                b == (kind.matches(c) && (newline_after || !c.is_line())),
            { kind.matches(c) && (newline_after || !c.is_line()) };
        let ghost p = claimed(kind, newline_after);
        assert(decides(claims, p));
        proof {
            lemma_some_of_filter(all, at(start, leading(any())), p, at(start, leading(p)));
            lemma_filter_some(all, at(start, leading(any())));
        }
        let stashed: bool = match self.comments.leading_at(start) {
            Some(comments) => any_matching(comments, claims),
            None => false,
        };
        if self.source_text.is_some() && stashed {
            let fits = |c: &Comment| -> (b: bool)
                ensures
                    b == ((newline_after || !c.is_line()) && (kind.matches(c) || !c.is_semantic())),
                { (newline_after || !c.is_line()) && (kind.matches(c) || !c.is_semantic()) };
            let ghost f = beside(kind, newline_after);
            assert(decides(fits, f));
            let taken: CommentList = self.comments.take_matching_leading_at(start, fits);
            proof {
                lemma_printable_sorted(self.source(), all.filter(at(start, leading(f))));
            }
            let comments: CommentList = taken.sorted_by_start();
            self.print_spaced(comments.items());
            if newline_after {
                self.print_hard_newline();
            } else {
                self.print_str(" ");
            }
            return;
        }
        self.print_str(kind.canonical(newline_after));
    }

    /// Prints comments with a space between them.
    fn print_spaced(&mut self, comments: &[Comment])
        requires
            all_printable(old(self).source(), comments@),
        ensures
            final(self).output() == old(self).output().spaced_comments(
                old(self).layout(),
                old(self).source(),
                comments@,
            ),
            final(self).settings() == old(self).settings(),
            final(self).comments == old(self).comments,
    {
        let ghost layout = self.layout();
        let ghost source = self.source();
        let mut i: usize = 0;
        assert(comments@.take(0) =~= Seq::<Comment>::empty());
        while i < comments.len()
            invariant
                i <= comments@.len(),
                layout == old(self).layout(),
                source == old(self).source(),
                all_printable(source, comments@),
                self.settings() == old(self).settings(),
                self.comments == old(self).comments,
                self.output() == old(self).output().spaced_comments(
                    layout,
                    source,
                    comments@.take(i as int),
                ),
            decreases comments@.len() - i,
        {
            assert(self.settings().source_text == old(self).settings().source_text);
            assert(self.settings().layout() == old(self).settings().layout());
            if i != 0 {
                self.print_str(" ");
            }
            let comment: Comment = comments[i];
            self.print_comment(&comment);
            assert(comments@.take(i + 1).drop_last() =~= comments@.take(i as int));
            i = i + 1;
        }
        assert(comments@.take(comments@.len() as int) =~= comments@);
    }
}

impl<'a> Codegen<'a> {
    /// Prints the leading comments of a boundary.
    pub fn print_leading_comments(&mut self, start: u32)
        requires
            old(self).comments.wf(),
            all_printable(
                old(self).source(),
                old(self).comments@.filter(at(start, leading(any()))),
            ),
        ensures
            final(self).comments.wf(),
            final(self).settings() == old(self).settings(),
            final(self).comments@ == old(self).comments@.filter(except(at(start, leading(any())))),
            final(self).output() == old(self).output().comments(
                old(self).layout(),
                old(self).source(),
                old(self).comments@.filter(at(start, leading(any()))),
            ),
            final(self).page() == old(self).page().led(
                old(self).layout(),
                old(self).source(),
                start,
            ),
    {
        proof {
            lemma_filter_some(self.comments@, at(start, leading(any())));
        }
        if let Some(comments) = self.comments.take_leading_at(start) {
            self.print_comments(comments.items());
        }
    }

    /// Takes the comments of a boundary but for the annotations that steer tree shaking, in
    /// the order of the source.
    pub fn get_comments(&mut self, start: u32) -> (comments: Option<CommentList>)
        requires
            old(self).comments.wf(),
        ensures
            final(self).comments.wf(),
            final(self).settings() == old(self).settings(),
            final(self).output() == old(self).output(),
            final(self).comments@ == old(self).comments@.filter(
                except(at(start, except(semantic()))),
            ),
            comments is Some <==> some_of(old(self).comments@, at(start, except(semantic()))),
            comments matches Some(list) ==> list@ == by_start(
                old(self).comments@.filter(at(start, except(semantic()))),
            ),
    {
        let predicate = |c: &Comment| -> (b: bool)
            ensures
                b == !c.is_semantic(),
            { !c.is_pure() && !c.is_no_side_effects() };
        let ghost p = except(semantic());
        let ghost all = self.comments@;
        assert(decides(predicate, p));
        let comments: CommentList = self.comments.take_matching_at(start, predicate);
        proof {
            lemma_filter_some(all, at(start, p));
            law_sort_by_permutes(all.filter(at(start, p)), start_le());
        }
        if comments.is_empty() {
            None
        } else {
            Some(comments)
        }
    }

    /// Prints the comments of a boundary but for the annotations that steer tree shaking.
    pub fn print_comments_at(&mut self, start: u32)
        requires
            old(self).comments.wf(),
            all_printable(
                old(self).source(),
                old(self).comments@.filter(at(start, except(semantic()))),
            ),
        ensures
            final(self).comments.wf(),
            final(self).settings() == old(self).settings(),
            final(self).comments@ == old(self).comments@.filter(
                except(at(start, except(semantic()))),
            ),
            final(self).output() == old(self).output().comments(
                old(self).layout(),
                old(self).source(),
                by_start(old(self).comments@.filter(at(start, except(semantic())))),
            ),
            final(self).page() == old(self).page().printed_at(
                old(self).layout(),
                old(self).source(),
                start,
            ),
    {
        proof {
            let q = at(start, except(semantic()));
            lemma_filter_some(self.comments@, q);
            law_sort_by_permutes(self.comments@.filter(q), start_le());
            lemma_printable_sorted(self.source(), self.comments@.filter(q));
        }
        if let Some(comments) = self.get_comments(start) {
            self.print_comments(comments.items());
        }
    }

    /// Is there a leading comment at the boundary that has a meaning of its own at a node?
    pub fn has_attached_comments_at(&self, start: u32) -> (found: bool)
        requires
            self.comments.wf(),
        ensures
            found == some_of(
                self.comments@,
                at(start, leading(attached())),
            ),
            found <==> exists|i: int|
                0 <= i < self.comments@.len() && (#[trigger] self.comments@[i]).attached_to == start && leads(
                    self.comments@[i],
                ) && match self.comments@[i].content {
                    CommentContent::Jsdoc
                    | CommentContent::JsdocLegal
                    | CommentContent::Webpack
                    | CommentContent::Vite
                    | CommentContent::CoverageIgnore
                    | CommentContent::Turbopack
                    | CommentContent::CoverageIgnoreFile => true,
                    _ => false,
                },
    {
        let ghost p = attached();
        assert(decides(is_attached, p));
        proof {
            lemma_some_of_filter(
                self.comments@,
                at(start, leading(any())),
                p,
                at(start, leading(p)),
            );
            lemma_filter_some(self.comments@, at(start, leading(any())));
        }
        match self.comments.leading_at(start) {
            Some(comments) => any_matching(comments, is_attached),
            None => false,
        }
    }

    /// Prints the leading comments of a boundary that have a meaning of their own at a node.
    pub fn print_attached_comments_at(&mut self, start: u32)
        requires
            old(self).comments.wf(),
            all_printable(
                old(self).source(),
                old(self).comments@.filter(
                    at(start, leading(attached())),
                ),
            ),
        ensures
            final(self).comments.wf(),
            final(self).settings() == old(self).settings(),
            final(self).comments@ == old(self).comments@.filter(
                except(at(start, leading(attached()))),
            ),
            final(self).output() == old(self).output().group_glued(
                old(self).layout(),
                old(self).source(),
                old(self).comments@.filter(
                    at(start, leading(attached())),
                ),
            ),
            final(self).page() == old(self).page().attached_at(
                old(self).layout(),
                old(self).source(),
                start,
            ),
    {
        let ghost p = attached();
        assert(decides(is_attached, p));
        let comments: CommentList = self.comments.take_matching_leading_at(start, is_attached);
        self.print_group_glued(&comments);
    }

    /// Prints the leading normal comments of a boundary.
    pub fn print_normal_comments_at(&mut self, start: u32)
        requires
            old(self).comments.wf(),
            all_printable(
                old(self).source(),
                old(self).comments@.filter(at(start, leading(normal()))),
            ),
        ensures
            final(self).comments.wf(),
            final(self).settings() == old(self).settings(),
            final(self).comments@ == old(self).comments@.filter(
                except(at(start, leading(normal()))),
            ),
            final(self).output() == old(self).output().group_glued(
                old(self).layout(),
                old(self).source(),
                old(self).comments@.filter(at(start, leading(normal()))),
            ),
            final(self).page() == old(self).page().normal_at(
                old(self).layout(),
                old(self).source(),
                start,
            ),
    {
        let predicate = |c: &Comment| -> (b: bool)
            ensures
                b == c.is_normal(),
            { c.is_normal() };
        assert(decides(predicate, normal()));
        let comments: CommentList = self.comments.take_matching_leading_at(start, predicate);
        self.print_group_glued(&comments);
    }

    /// Prints a group of comments and the pending space behind it, unless it ends a line.
    fn print_group_glued(&mut self, comments: &CommentList)
        requires
            all_printable(old(self).source(), comments@),
        ensures
            final(self).output() == old(self).output().group_glued(
                old(self).layout(),
                old(self).source(),
                comments@,
            ),
            final(self).settings() == old(self).settings(),
            final(self).comments == old(self).comments,
    {
        if comments.is_empty() {
            return;
        }
        self.print_comments(comments.items());
        if self.last_byte() != Some(10u8) {
            self.consume_pending_indent_space();
        }
    }

    /// Prints a group of comments, and the indentation or the pending space that the next
    /// token of an expression needs.
    pub fn print_group_resumed(&mut self, comments: &CommentList)
        requires
            all_printable(old(self).source(), comments@),
        ensures
            final(self).output() == old(self).output().group_resumed(
                old(self).layout(),
                old(self).source(),
                comments@,
            ),
            final(self).settings() == old(self).settings(),
            final(self).comments == old(self).comments,
    {
        if comments.is_empty() {
            return;
        }
        self.print_comments(comments.items());
        if self.last_byte() == Some(10u8) {
            self.print_indent();
        } else {
            self.consume_pending_indent_space();
        }
    }

    /// Prints the trailing normal comments of a boundary.
    pub fn print_trailing_normal_comments_at(&mut self, end: u32)
        requires
            old(self).comments.wf(),
            all_printable(
                old(self).source(),
                old(self).comments@.filter(at(end, trailing(normal()))),
            ),
        ensures
            final(self).comments.wf(),
            final(self).settings() == old(self).settings(),
            final(self).comments@ == old(self).comments@.filter(
                except(at(end, trailing(normal()))),
            ),
            final(self).output() == old(self).output().group_behind(
                old(self).layout(),
                old(self).source(),
                old(self).comments@.filter(at(end, trailing(normal()))),
            ),
            final(self).page() == old(self).page().normal_behind(
                old(self).layout(),
                old(self).source(),
                end,
            ),
    {
        let predicate = |c: &Comment| -> (b: bool)
            ensures
                b == c.is_normal(),
            { c.is_normal() };
        assert(decides(predicate, normal()));
        let comments: CommentList = self.comments.take_matching_trailing_at(end, predicate);
        if !comments.is_empty() {
            self.print_soft_space();
            self.print_comments(comments.items());
            self.clear_pending_indent_space();
        }
    }
}

impl<'a> Codegen<'a> {
    /// Prints the trailing comments of a boundary, where one of them is worth it. Those in the
    /// HTML style are left for the end of a line.
    pub fn print_trailing_attached_comments_at(&mut self, end: u32)
        requires
            old(self).comments.wf(),
            all_printable(
                old(self).source(),
                old(self).comments@.filter(at(end, trailing(line()))),
            ),
            some_of(old(self).comments@, at(end, trailing(worth_trailing(old(self).source()))))
                ==> all_printable(
                old(self).source(),
                old(self).comments@.filter(at(end, trailing(any()))),
            ),
        ensures
            final(self).comments.wf(),
            final(self).settings() == old(self).settings(),
            ({
                let source = old(self).source();
                let taken = at(end, trailing(except(html(source))));
                if some_of(old(self).comments@, at(end, trailing(worth_trailing(source)))) {
                    &&& final(self).comments@ == old(self).comments@.filter(except(taken))
                    &&& final(self).output() == old(self).output().group_behind(
                        old(self).layout(),
                        source,
                        old(self).comments@.filter(taken),
                    )
                } else {
                    &&& final(self).comments@ == old(self).comments@
                    &&& final(self).output() == old(self).output()
                }
            }),
            final(self).page() == old(self).page().behind(
                old(self).layout(),
                old(self).source(),
                end,
            ),
    {
        let ghost source = self.source();
        let ghost all = self.comments@;
        let source_text: Option<&str> = self.source_text;
        let worthy = |c: &Comment| -> (b: bool)
            ensures
                b == worth_trailing(viewed(source_text))(*c),
            {
                !is_known_html(*c, source_text) && (c.is_normal() || c.is_jsdoc() || (
                c.is_annotation() && !c.is_property_key_annotation()))
            };
        assert(decides(worthy, worth_trailing(source)));
        proof {
            lemma_filter_some(all, at(end, trailing(any())));
            lemma_some_of_filter(
                all,
                at(end, trailing(any())),
                worth_trailing(source),
                at(end, trailing(worth_trailing(source))),
            );
        }
        let should_print: bool = match self.comments.trailing_at(end) {
            Some(comments) => any_matching(comments, worthy),
            None => false,
        };
        if should_print {
            self.print_soft_space();
            let others = |c: &Comment| -> (b: bool)
                ensures
                    b == !html(viewed(source_text))(*c),
                { !is_known_html(*c, source_text) };
            let ghost p = except(html(source));
            assert(decides(others, p));
            let comments: CommentList = self.comments.take_matching_trailing_at(end, others);
            proof {
                lemma_printable_part(source, all, at(end, trailing(p)), at(end, trailing(any())));
                let i = choose|i: int|
                    0 <= i < all.len() && at(end, trailing(worth_trailing(source)))(
                        #[trigger] all[i],
                    );
                assert(at(end, trailing(p))(all[i]));
                lemma_filter_some(all, at(end, trailing(p)));
            }
            self.print_comments(comments.items());
            self.clear_pending_indent_space();
        }
    }

    /// Prints the leading comments of a boundary, and the indentation or the pending space
    /// that the next token of an expression needs. Without the indentation, the token would be
    /// laid out differently once the output is read and printed again.
    pub fn print_leading_comments_anchored_to_self(&mut self, start: u32)
        requires
            old(self).comments.wf(),
            all_printable(
                old(self).source(),
                old(self).comments@.filter(at(start, leading(any()))),
            ),
        ensures
            final(self).comments.wf(),
            final(self).settings() == old(self).settings(),
            final(self).comments@ == old(self).comments@.filter(except(at(start, leading(any())))),
            final(self).output() == old(self).output().group_resumed(
                old(self).layout(),
                old(self).source(),
                old(self).comments@.filter(at(start, leading(any()))),
            ),
            final(self).page() == old(self).page().group(
                old(self).layout(),
                old(self).source(),
                start,
                any(),
            ),
    {
        proof {
            lemma_filter_some(self.comments@, at(start, leading(any())));
        }
        if let Some(comments) = self.comments.take_leading_at(start) {
            self.print_group_resumed(&comments);
        }
    }

    /// Prints the leading comments of a string or template literal, where one of them is a
    /// property-key annotation.
    pub fn print_property_key_annotation(&mut self, start: u32)
        requires
            old(self).comments.wf(),
            old(self).has_property_key_annotations && some_of(
                old(self).comments@,
                at(start, leading(property_key())),
            ) ==> all_printable(
                old(self).source(),
                old(self).comments@.filter(at(start, leading(any()))),
            ),
        ensures
            final(self).comments.wf(),
            final(self).settings() == old(self).settings(),
            if old(self).has_property_key_annotations && some_of(
                old(self).comments@,
                at(start, leading(property_key())),
            ) {
                &&& final(self).comments@ == old(self).comments@.filter(
                    except(at(start, leading(any()))),
                )
                &&& final(self).output() == old(self).output().group_resumed(
                    old(self).layout(),
                    old(self).source(),
                    old(self).comments@.filter(at(start, leading(any()))),
                )
            } else {
                &&& final(self).comments@ == old(self).comments@
                &&& final(self).output() == old(self).output()
            },
            final(self).page() == (if old(self).has_property_key_annotations {
                old(self).page().keyed(old(self).layout(), old(self).source(), start)
            } else {
                old(self).page()
            }),
    {
        if !self.has_property_key_annotations {
            return;
        }
        let predicate = |c: &Comment| -> (b: bool)
            ensures
                b == c.is_property_key_annotation(),
            { c.is_property_key_annotation() };
        assert(decides(predicate, property_key()));
        proof {
            lemma_filter_some(self.comments@, at(start, leading(any())));
            lemma_some_of_filter(
                self.comments@,
                at(start, leading(any())),
                property_key(),
                at(start, leading(property_key())),
            );
        }
        let found: bool = match self.comments.leading_at(start) {
            Some(comments) => any_matching(comments, predicate),
            None => false,
        };
        if found {
            self.print_leading_comments_anchored_to_self(start);
        }
    }

    /// Is a comment that outlives its node still pending before `end`?
    pub fn has_orphan_comments_before(&self, end: u32) -> (found: bool)
        requires
            self.comments.wf(),
        ensures
            found == some_of(self.comments@, within(0, end - 1, lasting())),
            found <==> exists|i: int|
                0 <= i < self.comments@.len() && (#[trigger] self.comments@[i]).attached_to < end && leads(
                    self.comments@[i],
                ) && (self.comments@[i].content == CommentContent::Legal
                    || self.comments@[i].content == CommentContent::JsdocLegal
                    || self.comments@[i].content == CommentContent::CoverageIgnoreFile),
    {
        let predicate = |c: &Comment| -> (b: bool)
            ensures
                b == lasting()(*c),
            { preserve_when_orphaned(*c) };
        assert(decides(predicate, lasting()));
        self.comments.has_matching_before(end, predicate)
    }

    /// Prints the pending comments before `end` that outlive their nodes, in the order of the
    /// source and with a line break behind them: what the source had behind them is somewhere
    /// else now.
    pub fn print_orphan_comments_before(&mut self, end: u32)
        requires
            old(self).comments.wf(),
            all_printable(
                old(self).source(),
                old(self).comments@.filter(within(0, end - 1, lasting())),
            ),
        ensures
            final(self).comments.wf(),
            final(self).settings() == old(self).settings(),
            final(self).comments@ == old(self).comments@.filter(
                except(within(0, end - 1, lasting())),
            ),
            final(self).output() == old(self).output().comments(
                old(self).layout(),
                old(self).source(),
                closed_off(by_start(old(self).comments@.filter(within(0, end - 1, lasting())))),
            ),
            final(self).page() == old(self).page().orphans_before(
                old(self).layout(),
                old(self).source(),
                end,
            ),
    {
        let ghost all = self.comments@;
        let predicate = |c: &Comment| -> (b: bool)
            ensures
                b == lasting()(*c),
            { preserve_when_orphaned(*c) };
        assert(decides(predicate, lasting()));
        let mut orphans: CommentList = self.comments.take_matching_before(end, predicate);
        proof {
            lemma_printable_sorted(self.source(), all.filter(within(0, end - 1, lasting())));
            lemma_printable_closed_off(self.source(), orphans@);
        }
        close_off(&mut orphans);
        self.print_comments(orphans.items());
    }

    /// Prints the comments strictly between two boundaries but for the annotations that steer
    /// tree shaking, and tells whether there were any.
    pub fn print_comments_in_range(&mut self, start: u32, end: u32) -> (printed: bool)
        requires
            old(self).comments.wf(),
            all_printable(
                old(self).source(),
                old(self).comments@.filter(within(start + 1, end - 1, except(semantic()))),
            ),
        ensures
            final(self).comments.wf(),
            final(self).settings() == old(self).settings(),
            printed == some_of(
                old(self).comments@,
                within(start + 1, end - 1, except(semantic())),
            ),
            final(self).comments@ == old(self).comments@.filter(
                except(within(start + 1, end - 1, except(semantic()))),
            ),
            final(self).output() == old(self).output().comments(
                old(self).layout(),
                old(self).source(),
                by_start(
                    old(self).comments@.filter(within(start + 1, end - 1, except(semantic()))),
                ),
            ),
            final(self).page() == old(self).page().between(
                old(self).layout(),
                old(self).source(),
                start,
                end,
            ),
            printed <==> exists|i: int|
                0 <= i < old(self).comments@.len() && start < (
                #[trigger] old(self).comments@[i]).attached_to < end && !steers(
                    old(self).comments@[i],
                ),
    {
        let ghost all = self.comments@;
        let ghost q = within(start + 1, end - 1, except(semantic()));
        let predicate = |c: &Comment| -> (b: bool)
            ensures
                b == !c.is_semantic(),
            { !c.is_pure() && !c.is_no_side_effects() };
        assert(decides(predicate, except(semantic())));
        let comments: CommentList = self.comments.take_between(start, end, predicate);
        proof {
            lemma_filter_some(all, q);
            law_sort_by_permutes(all.filter(q), start_le());
            lemma_printable_sorted(self.source(), all.filter(q));
        }
        if comments.is_empty() {
            return false;
        }
        self.print_comments(comments.items());
        true
    }

    /// Is there a comment strictly between two boundaries?
    pub fn has_comments_in_range(&self, start: u32, end: u32) -> (found: bool)
        requires
            self.comments.wf(),
        ensures
            found == some_of(self.comments@, within(start + 1, end - 1, any())),
            found <==> exists|i: int|
                0 <= i < self.comments@.len() && start < (#[trigger] self.comments@[i]).attached_to < end,
    {
        self.comments.has_between(start, end)
    }

    /// Is a comment still pending in the span, its ends among its boundaries?
    pub fn has_remaining_comments_in_span(&self, span: Span) -> (found: bool)
        requires
            self.comments.wf(),
        ensures
            found == some_of(self.comments@, within(span.start as int, span.end as int, any())),
            found <==> exists|i: int|
                0 <= i < self.comments@.len() && span.start <= (#[trigger] self.comments@[i]).attached_to
                    <= span.end,
    {
        self.comments.has_remaining_in(span.start, span.end)
    }

    /// Prints comments that have lost the nodes they stood at.
    fn print_left_over(&mut self, comments: CommentList)
        requires
            all_printable(old(self).source(), comments@),
        ensures
            final(self).output() == old(self).output().left_over(
                old(self).layout(),
                old(self).source(),
                comments@,
            ),
            final(self).settings() == old(self).settings(),
            final(self).comments == old(self).comments,
    {
        if comments.is_empty() {
            return;
        }
        let mut comments: CommentList = comments;
        let first: Comment = comments.items()[0];
        if self.last_byte() != Some(10u8) && !first.preceded_by_newline() {
            self.print_soft_space();
        }
        proof {
            lemma_printable_closed_off(self.source(), comments@);
        }
        close_off(&mut comments);
        self.print_comments(comments.items());
    }

    /// Prints the comments still pending in the span.
    pub fn print_remaining_comments_in_span(&mut self, span: Span)
        requires
            old(self).comments.wf(),
            all_printable(
                old(self).source(),
                old(self).comments@.filter(within(span.start as int, span.end as int, any())),
            ),
        ensures
            final(self).comments.wf(),
            final(self).settings() == old(self).settings(),
            final(self).comments@ == old(self).comments@.filter(
                except(within(span.start as int, span.end as int, any())),
            ),
            final(self).output() == old(self).output().left_over(
                old(self).layout(),
                old(self).source(),
                by_start(
                    old(self).comments@.filter(within(span.start as int, span.end as int, any())),
                ),
            ),
            final(self).page() == old(self).page().rest_within(
                old(self).layout(),
                old(self).source(),
                span.start,
                span.end,
            ),
    {
        let ghost all = self.comments@;
        let comments: CommentList = self.comments.take_remaining_in(span.start, span.end);
        proof {
            lemma_printable_sorted(
                self.source(),
                all.filter(within(span.start as int, span.end as int, any())),
            );
        }
        self.print_left_over(comments);
    }

    /// Prints all comments still pending.
    pub fn print_all_remaining_comments(&mut self)
        requires
            old(self).comments.wf(),
            all_printable(old(self).source(), old(self).comments@),
        ensures
            final(self).comments.wf(),
            final(self).settings() == old(self).settings(),
            final(self).comments@ == Seq::<Comment>::empty(),
            final(self).output() == old(self).output().left_over(
                old(self).layout(),
                old(self).source(),
                by_start(old(self).comments@),
            ),
            final(self).page() == old(self).page().rest_within(
                old(self).layout(),
                old(self).source(),
                0,
                u32::MAX,
            ),
    {
        proof {
            let every = within(0, u32::MAX as int, any());
            lemma_printable_sorted(self.source(), self.comments@);
            lemma_filter_all(self.comments@, every);
            lemma_filter_none(self.comments@, except(every));
        }
        let comments: CommentList = self.comments.take_all_remaining();
        self.print_left_over(comments);
    }

    /// Prints the comments of a boundary, but for the annotations that steer tree shaking, on
    /// lines of their own, and tells whether there were any.
    pub fn print_expr_comments(&mut self, start: u32) -> (printed: bool)
        requires
            old(self).comments.wf(),
            all_printable(
                old(self).source(),
                old(self).comments@.filter(at(start, except(semantic()))),
            ),
        ensures
            final(self).comments.wf(),
            final(self).settings() == old(self).settings(),
            printed == some_of(old(self).comments@, at(start, except(semantic()))),
            final(self).comments@ == old(self).comments@.filter(
                except(at(start, except(semantic()))),
            ),
            final(self).output() == (if printed {
                old(self).output().stacked_comments(
                    old(self).layout(),
                    old(self).source(),
                    by_start(old(self).comments@.filter(at(start, except(semantic())))),
                ).newline()
            } else {
                old(self).output()
            }),
            final(self).page() == old(self).page().on_lines(
                old(self).layout(),
                old(self).source(),
                start,
            ),
            printed <==> exists|i: int|
                0 <= i < old(self).comments@.len() && (
                #[trigger] old(self).comments@[i]).attached_to == start && !steers(
                    old(self).comments@[i],
                ),
    {
        let ghost layout = self.layout();
        let ghost source = self.source();
        let ghost all = self.comments@;
        let ghost q = at(start, except(semantic()));
        proof {
            lemma_printable_sorted(source, all.filter(q));
            lemma_filter_some(all, q);
            law_sort_by_permutes(all.filter(q), start_le());
        }
        let comments: CommentList = match self.get_comments(start) {
            Some(comments) => comments,
            None => {
                return false;
            },
        };
        let ghost left = self.comments;
        let items: &[Comment] = comments.items();
        let mut i: usize = 0;
        assert(items@.take(0) =~= Seq::<Comment>::empty());
        while i < items.len()
            invariant
                i <= items@.len(),
                layout == old(self).layout(),
                source == old(self).source(),
                all_printable(source, items@),
                self.settings() == old(self).settings(),
                self.comments == left,
                self.output() == old(self).output().stacked_comments(
                    layout,
                    source,
                    items@.take(i as int),
                ),
            decreases items@.len() - i,
        {
            assert(self.settings().source_text == old(self).settings().source_text);
            assert(self.settings().layout() == old(self).settings().layout());
            let comment: Comment = items[i];
            self.print_hard_newline();
            self.print_indent();
            self.print_comment(&comment);
            assert(items@.take(i + 1).drop_last() =~= items@.take(i as int));
            i = i + 1;
        }
        assert(items@.take(items@.len() as int) =~= items@);
        self.print_hard_newline();
        true
    }
}

/// Filtering twice.
pub proof fn lemma_filter_twice(
    s: Seq<Comment>,
    p: spec_fn(Comment) -> bool,
    q: spec_fn(Comment) -> bool,
    both: spec_fn(Comment) -> bool,
)
    requires
        forall|c: Comment| #[trigger] both(c) == (p(c) && q(c)),
    ensures
        s.filter(p).filter(q) == s.filter(both),
    decreases s.len(),
{
    reveal(Seq::filter);
    if s.len() > 0 {
        lemma_filter_twice(s.drop_last(), p, q, both);
        let rest = s.drop_last().filter(p);
        if p(s.last()) {
            assert(rest.push(s.last()).drop_last() =~= rest);
        }
        assert(both(s.last()) == (p(s.last()) && q(s.last())));
    }
}

/// Sorting printable comments leaves them printable.
pub proof fn lemma_printable_sorted(source: Option<Seq<char>>, s: Seq<Comment>)
    requires
        all_printable(source, s),
    ensures
        all_printable(source, by_start(s)),
{
    lemma_sort_by_elements(s, start_le());
    assert forall|i: int| 0 <= i < by_start(s).len() implies printable(
        source,
        #[trigger] by_start(s)[i],
    ) by {
        assert(s.contains(by_start(s)[i]));
    }
}

/// A line break stated behind the last comment changes nothing of what can be printed.
proof fn lemma_printable_closed_off(source: Option<Seq<char>>, s: Seq<Comment>)
    requires
        all_printable(source, s),
    ensures
        all_printable(source, closed_off(s)),
{
    assert forall|i: int| 0 <= i < closed_off(s).len() implies printable(
        source,
        #[trigger] closed_off(s)[i],
    ) by {
        assert(printable(source, s[i]));
    }
}

/// What a filter keeps is printable where what a wider one keeps is.
pub proof fn lemma_printable_part(
    source: Option<Seq<char>>,
    s: Seq<Comment>,
    p: spec_fn(Comment) -> bool,
    wider: spec_fn(Comment) -> bool,
)
    requires
        all_printable(source, s.filter(wider)),
        forall|c: Comment| #[trigger] p(c) ==> wider(c),
    ensures
        all_printable(source, s.filter(p)),
{
    lemma_filter_elements(s, p);
    assert forall|k: int| 0 <= k < s.filter(p).len() implies printable(
        source,
        #[trigger] s.filter(p)[k],
    ) by {
        let c = s.filter(p)[k];
        assert(s.contains(c) && p(c));
        let j = choose|j: int| 0 <= j < s.len() && s[j] == c;
        s.lemma_filter_contains(wider, j);
        let m = choose|m: int| 0 <= m < s.filter(wider).len() && s.filter(wider)[m] == c;
        assert(printable(source, s.filter(wider)[m]));
    }
}

} // verus!
