//! Comments before expressions, at every pair of parentheses around them.
use vstd::prelude::*;

use crate::codegen::{lemma_filter_twice, lemma_printable_part};
use crate::comment::Comment;
use crate::expression::{is_pife_function, Expression};
use crate::list::CommentList;
use crate::pending::{any, at, decides, except, leading, semantic, some_of};
use crate::printer::{all_printable, Codegen, Layout, Output};
use crate::selection::{attached, is_stray_annotation, stray_annotation};

verus! {

/// What has been printed, and what is still to be printed.
#[verifier::ext_equal]
pub struct Page {
    pub output: Output,
    pub comments: Seq<Comment>,
}

/// The leading comments of some boundaries that `p` holds of.
pub open spec fn opening(starts: Seq<u32>, p: spec_fn(Comment) -> bool) -> spec_fn(
    Comment,
) -> bool {
    |c: Comment| starts.contains(c.attached_to) && c.is_leading() && p(c)
}

/// The comments at boundaries that have a leading comment, among the given ones, with a meaning
/// of its own.
pub open spec fn beside_attached(comments: Seq<Comment>) -> spec_fn(Comment) -> bool {
    |c: Comment| some_of(comments, at(c.attached_to, leading(attached())))
}

impl Page {
    /// Prints the leading comments of a boundary that `p` holds of.
    pub open spec fn group(
        self,
        layout: Layout,
        source: Option<Seq<char>>,
        start: u32,
        p: spec_fn(Comment) -> bool,
    ) -> Page {
        Page {
            output: self.output.group_resumed(
                layout,
                source,
                self.comments.filter(at(start, leading(p))),
            ),
            comments: self.comments.filter(except(at(start, leading(p)))),
        }
    }

    /// Prints the leading comments, of which `p` holds, of one boundary after the other.
    pub open spec fn groups(
        self,
        layout: Layout,
        source: Option<Seq<char>>,
        starts: Seq<u32>,
        p: spec_fn(Comment) -> bool,
    ) -> Page
        decreases starts.len(),
    {
        if starts.len() == 0 {
            self
        } else {
            self.group(layout, source, starts[0], p).groups(layout, source, starts.drop_first(), p)
        }
    }

    /// Prints the leading comments of one boundary after the other, passing over those where
    /// none has a meaning of its own.
    pub open spec fn attached_groups(
        self,
        layout: Layout,
        source: Option<Seq<char>>,
        starts: Seq<u32>,
    ) -> Page
        decreases starts.len(),
    {
        if starts.len() == 0 {
            self
        } else if some_of(self.comments, at(starts[0], leading(attached()))) {
            self.group(layout, source, starts[0], any()).attached_groups(
                layout,
                source,
                starts.drop_first(),
            )
        } else {
            self.attached_groups(layout, source, starts.drop_first())
        }
    }
}

impl<'a> Codegen<'a> {
    /// What has been printed, and what is still to be printed.
    pub open spec fn page(&self) -> Page {
        Page { output: self.output(), comments: self.comments@ }
    }

    /// Prints the comments of an expression, at each of its parentheses, where one of them has
    /// a meaning of its own. An object literal prints its own.
    pub fn print_attached_comments_before_expression(&mut self, expression: &Expression)
        requires
            old(self).comments.wf(),
            !expression.pife() ==> all_printable(
                old(self).source(),
                old(self).comments@.filter(
                    opening(
                        expression.openings_but_object(),
                        beside_attached(old(self).comments@),
                    ),
                ),
            ),
        ensures
            final(self).comments.wf(),
            final(self).settings() == old(self).settings(),
            final(self).page() == (if expression.pife() {
                old(self).page()
            } else {
                old(self).page().attached_groups(
                    old(self).layout(),
                    old(self).source(),
                    expression.openings_but_object(),
                )
            }),
            final(self).page() == old(self).page().attached_before_operand(
                old(self).layout(),
                old(self).source(),
                *expression,
            ),
        decreases expression,
    {
        if is_pife_function(expression) || matches!(expression, Expression::Object { .. }) {
            return;
        }
        let start: u32 = expression.span().start;
        let ghost starts = expression.openings_but_object();
        let ghost all = self.comments@;
        let ghost source = self.source();
        let ghost wide = opening(starts, beside_attached(all));
        assert(starts[0] == start);
        assert(starts.contains(start));
        if self.has_attached_comments_at(start) {
            proof {
                lemma_printable_part(source, all, at(start, leading(any())), wide);
            }
            self.print_leading_comments_anchored_to_self(start);
        }
        let ghost page = self.page();
        if let Expression::Parenthesized { expression: inner, .. } = expression {
            let ghost rest = inner.openings_but_object();
            assert(starts.drop_first() =~= rest);
            proof {
                let left = self.comments@;
                let narrow = opening(rest, beside_attached(left));
                let gone = at(start, leading(any()));
                assert forall|c: Comment| #[trigger] narrow(c) implies wide(c) by {
                    let k = choose|k: int| 0 <= k < rest.len() && rest[k] == c.attached_to;
                    assert(starts[k + 1] == c.attached_to);
                    let q = at(c.attached_to, leading(attached()));
                    let i = choose|i: int| 0 <= i < left.len() && q(#[trigger] left[i]);
                    if left != all {
                        crate::pending::lemma_filter_elements(all, except(gone));
                        assert(all.contains(left[i]));
                        let j = choose|j: int| 0 <= j < all.len() && all[j] == left[i];
                        assert(q(all[j]));
                    }
                }
                if left == all {
                    lemma_printable_part(source, all, narrow, wide);
                } else {
                    let both = |c: Comment| except(gone)(c) && narrow(c);
                    lemma_filter_twice(all, except(gone), narrow, both);
                    lemma_printable_part(source, all, both, wide);
                }
            }
            self.print_attached_comments_before_expression(inner);
        }
        proof {
            if !(expression is Parenthesized) {
                assert(starts.drop_first() =~= Seq::<u32>::empty());
                assert(page.attached_groups(self.layout(), source, starts.drop_first())
                    == page);
            }
        }
    }

    /// Prints the comments of an expression, at each of its parentheses, but for the
    /// annotations that steer tree shaking. `a || /* c */ (x)` has the comment at the
    /// parenthesis, `a || (/* c */ x)` at `x`.
    pub fn print_leading_comments_before_expression(&mut self, expression: &Expression)
        requires
            old(self).comments.wf(),
            !expression.pife() ==> all_printable(
                old(self).source(),
                old(self).comments@.filter(
                    opening(expression.openings(), except(semantic())),
                ),
            ),
        ensures
            final(self).comments.wf(),
            final(self).settings() == old(self).settings(),
            final(self).page() == (if expression.pife() {
                old(self).page()
            } else {
                old(self).page().groups(
                    old(self).layout(),
                    old(self).source(),
                    expression.openings(),
                    except(semantic()),
                )
            }),
            final(self).page() == old(self).page().before_operand(
                old(self).layout(),
                old(self).source(),
                *expression,
            ),
        decreases expression,
    {
        if is_pife_function(expression) {
            return;
        }
        let start: u32 = expression.span().start;
        let predicate = |c: &Comment| -> (b: bool)
            ensures
                b == !c.is_semantic(),
            { !c.is_pure() && !c.is_no_side_effects() };
        let ghost p = except(semantic());
        let ghost starts = expression.openings();
        let ghost all = self.comments@;
        let ghost source = self.source();
        assert(decides(predicate, p));
        let comments: CommentList = self.comments.take_matching_leading_at(start, predicate);
        proof {
            assert(starts[0] == start);
            lemma_printable_part(source, all, at(start, leading(p)), opening(starts, p));
        }
        self.print_group_resumed(&comments);
        let ghost page = self.page();
        if let Expression::Parenthesized { expression: inner, .. } = expression {
            proof {
                lemma_opening_inner(source, all, starts, inner.openings(), p);
            }
            self.print_leading_comments_before_expression(inner);
        }
        proof {
            if !(expression is Parenthesized) {
                assert(starts.drop_first() =~= Seq::<u32>::empty());
                assert(page.groups(self.layout(), source, starts.drop_first(), p) == page);
            }
        }
    }

    /// Prints the annotations of an expression, at each of its parentheses, that have no place
    /// of their own.
    ///
    /// This is for places into which statements may have been moved. A comment belongs to a
    /// place in the source, so a normal comment of the statement would end up inside the
    /// expression; an annotation is meant for the expression.
    pub fn print_annotation_comments_before_expression(&mut self, expression: &Expression)
        requires
            old(self).comments.wf(),
            !expression.pife() ==> all_printable(
                old(self).source(),
                old(self).comments@.filter(opening(expression.openings(), stray_annotation())),
            ),
        ensures
            final(self).comments.wf(),
            final(self).settings() == old(self).settings(),
            final(self).page() == (if expression.pife() {
                old(self).page()
            } else {
                old(self).page().groups(
                    old(self).layout(),
                    old(self).source(),
                    expression.openings(),
                    stray_annotation(),
                )
            }),
            final(self).page() == old(self).page().annotations_before_operand(
                old(self).layout(),
                old(self).source(),
                *expression,
            ),
        decreases expression,
    {
        if is_pife_function(expression) {
            return;
        }
        let start: u32 = expression.span().start;
        let ghost p = stray_annotation();
        let ghost starts = expression.openings();
        let ghost all = self.comments@;
        let ghost source = self.source();
        assert(decides(is_stray_annotation, p));
        let comments: CommentList = self.comments.take_matching_leading_at(
            start,
            is_stray_annotation,
        );
        proof {
            assert(starts[0] == start);
            lemma_printable_part(source, all, at(start, leading(p)), opening(starts, p));
        }
        self.print_group_resumed(&comments);
        let ghost page = self.page();
        if let Expression::Parenthesized { expression: inner, .. } = expression {
            proof {
                lemma_opening_inner(source, all, starts, inner.openings(), p);
            }
            self.print_annotation_comments_before_expression(inner);
        }
        proof {
            if !(expression is Parenthesized) {
                assert(starts.drop_first() =~= Seq::<u32>::empty());
                assert(page.groups(self.layout(), source, starts.drop_first(), p) == page);
            }
        }
    }
}

/// What is left for the inner boundaries is printable where all is.
proof fn lemma_opening_inner(
    source: Option<Seq<char>>,
    all: Seq<Comment>,
    starts: Seq<u32>,
    inner: Seq<u32>,
    p: spec_fn(Comment) -> bool,
)
    requires
        starts.len() > 0,
        starts == seq![starts[0]] + inner,
        all_printable(source, all.filter(opening(starts, p))),
    ensures
        starts.drop_first() == inner,
        all_printable(
            source,
            all.filter(except(at(starts[0], leading(p)))).filter(opening(inner, p)),
        ),
{
    assert(starts.drop_first() =~= inner);
    let gone = at(starts[0], leading(p));
    let narrow = opening(inner, p);
    let wide = opening(starts, p);
    let both = |c: Comment| except(gone)(c) && narrow(c);
    assert forall|c: Comment| #[trigger] both(c) implies wide(c) by {
        let k = choose|k: int| 0 <= k < inner.len() && inner[k] == c.attached_to;
        assert(starts[k + 1] == c.attached_to);
    }
    lemma_filter_twice(all, except(gone), narrow, both);
    lemma_printable_part(source, all, both, wide);
}

} // verus!
