//! The layers of parentheses around an expression, and the comments before each.
use vstd::prelude::*;

use crate::comment::{Comment, CommentContent};
use crate::expression::Expression;
use crate::laws::law_openings_are_cleared;
use crate::operands::{opening, Page};
use crate::pending::{
    any, at, except, leading, lemma_filter_agree, lemma_filter_elements, semantic, some_of,
};
use crate::printer::Layout;
use crate::questions::leads;
use crate::selection::{attached, stray_annotation};

verus! {

/// What is left of an expression when `n` pairs of parentheses around it are taken off, or all
/// of them where there are fewer.
pub open spec fn layer(expression: Expression, n: nat) -> Expression
    decreases n,
{
    match expression {
        Expression::Parenthesized { expression: inner, .. } => if n == 0 {
            expression
        } else {
            layer(*inner, (n - 1) as nat)
        },
        _ => expression,
    }
}

/// The place of an expression is the one that it was given.
pub proof fn law_span(expression: Expression)
    ensures
        match expression {
            Expression::ArrowFunction { span, .. } => expression.span() == span,
            Expression::Function { span, .. } => expression.span() == span,
            Expression::Parenthesized { span, .. } => expression.span() == span,
            Expression::Object { span } => expression.span() == span,
            Expression::Other { span } => expression.span() == span,
        },
{
}

/// The openings of an expression are the starts of its layers, from the outside in, down to the
/// first that is not in parentheses; an object literal at the core may be left out. The core
/// alone tells whether the expression is a function to be compiled at once.
pub proof fn law_layers(expression: Expression) -> (depth: nat)
    ensures
        !(layer(expression, depth) is Parenthesized),
        forall|k: nat| k < depth ==> #[trigger] layer(expression, k) is Parenthesized,
        expression.openings().len() == depth + 1,
        forall|k: int|
            0 <= k <= depth ==> #[trigger] expression.openings()[k] == layer(
                expression,
                k as nat,
            ).span().start,
        expression.openings_but_object() == (if layer(expression, depth) is Object {
            expression.openings().take(depth as int)
        } else {
            expression.openings()
        }),
        expression.pife() <==> match layer(expression, depth) {
            Expression::ArrowFunction { pife, .. } => pife,
            Expression::Function { pife, .. } => pife,
            _ => false,
        },
    decreases expression,
{
    match expression {
        Expression::Parenthesized { span, expression: inner } => {
            let below = law_layers(*inner);
            let depth = (below + 1) as nat;
            assert(layer(expression, depth) == layer(*inner, below));
            assert forall|k: nat| k < depth implies #[trigger] layer(
                expression,
                k,
            ) is Parenthesized by {
                if k > 0 {
                    assert(layer(expression, k) == layer(*inner, (k - 1) as nat));
                }
            }
            assert forall|k: int| 0 <= k <= depth implies #[trigger] expression.openings()[k]
                == layer(expression, k as nat).span().start by {
                if k > 0 {
                    assert(layer(expression, k as nat) == layer(*inner, (k - 1) as nat));
                    assert(expression.openings()[k] == inner.openings()[k - 1]);
                }
            }
            assert(expression.openings_but_object() =~= (if layer(expression, depth) is Object {
                expression.openings().take(depth as int)
            } else {
                expression.openings()
            }));
            depth
        },
        _ => {
            assert(expression.openings_but_object() =~= (if expression is Object {
                expression.openings().take(0)
            } else {
                expression.openings()
            }));
            0
        },
    }
}

/// The leading comments of one boundary that `p` holds of are printed, the others stay.
proof fn lemma_group(
    page: Page,
    layout: Layout,
    source: Option<Seq<char>>,
    start: u32,
    p: spec_fn(Comment) -> bool,
)
    ensures
        ({
            let own = |c: Comment| c.attached_to == start && leads(c) && p(c);
            let others = |c: Comment| !(c.attached_to == start && leads(c) && p(c));
            page.group(layout, source, start, p) == (Page {
                output: page.output.group_resumed(layout, source, page.comments.filter(own)),
                comments: page.comments.filter(others),
            })
        }),
{
    let own = |c: Comment| c.attached_to == start && leads(c) && p(c);
    let others = |c: Comment| !(c.attached_to == start && leads(c) && p(c));
    let q = at(start, leading(p));
    lemma_filter_agree(page.comments, q, own);
    lemma_filter_agree(page.comments, except(q), others);
}

/// Before an operand, the boundaries are gone through in turn: the leading comments of each
/// that are asked for are printed together, before those of the next.
pub proof fn law_openings_in_turn(
    page: Page,
    layout: Layout,
    source: Option<Seq<char>>,
    start: u32,
    rest: Seq<u32>,
    p: spec_fn(Comment) -> bool,
)
    ensures
        ({
            let own = |c: Comment| c.attached_to == start && leads(c) && p(c);
            let others = |c: Comment| !(c.attached_to == start && leads(c) && p(c));
            let next = Page {
                output: page.output.group_resumed(layout, source, page.comments.filter(own)),
                comments: page.comments.filter(others),
            };
            page.groups(layout, source, seq![start] + rest, p) == next.groups(
                layout,
                source,
                rest,
                p,
            )
        }),
        page.groups(layout, source, Seq::<u32>::empty(), p) == page,
{
    lemma_group(page, layout, source, start, p);
    assert((seq![start] + rest).drop_first() =~= rest);
}

/// Before an operand, boundaries at which no leading comment has a meaning of its own are passed
/// over; at the others all leading comments are printed together.
pub proof fn law_attached_openings_in_turn(
    page: Page,
    layout: Layout,
    source: Option<Seq<char>>,
    start: u32,
    rest: Seq<u32>,
)
    ensures
        ({
            let own = |c: Comment| c.attached_to == start && leads(c);
            let others = |c: Comment| !(c.attached_to == start && leads(c));
            let next = if exists|i: int|
                0 <= i < page.comments.len() && own(#[trigger] page.comments[i]) && attached()(
                    page.comments[i],
                ) {
                Page {
                    output: page.output.group_resumed(layout, source, page.comments.filter(own)),
                    comments: page.comments.filter(others),
                }
            } else {
                page
            };
            page.attached_groups(layout, source, seq![start] + rest) == next.attached_groups(
                layout,
                source,
                rest,
            )
        }),
        page.attached_groups(layout, source, Seq::<u32>::empty()) == page,
{
    let all = page.comments;
    let own = |c: Comment| c.attached_to == start && leads(c);
    let others = |c: Comment| !(c.attached_to == start && leads(c));
    let q = at(start, leading(attached()));
    lemma_group(page, layout, source, start, any());
    lemma_filter_agree(all, at(start, leading(any())), own);
    lemma_filter_agree(all, except(at(start, leading(any()))), others);
    assert((seq![start] + rest).drop_first() =~= rest);
    if some_of(all, q) {
        let i = choose|i: int| 0 <= i < all.len() && q(#[trigger] all[i]);
        assert(own(all[i]) && attached()(all[i]));
    }
    if exists|i: int| 0 <= i < all.len() && own(#[trigger] all[i]) && attached()(all[i]) {
        let i = choose|i: int|
            0 <= i < all.len() && own(#[trigger] all[i]) && attached()(all[i]);
        assert(q(all[i]));
    }
}

impl Page {
    /// The comments before an operand are printed, but for those that steer tree shaking.
    pub open spec fn before_operand(
        self,
        layout: Layout,
        source: Option<Seq<char>>,
        expression: Expression,
    ) -> Page {
        if expression.pife() {
            self
        } else {
            self.groups(layout, source, expression.openings(), except(semantic()))
        }
    }

    /// The annotations before an operand that have no place of their own are printed.
    pub open spec fn annotations_before_operand(
        self,
        layout: Layout,
        source: Option<Seq<char>>,
        expression: Expression,
    ) -> Page {
        if expression.pife() {
            self
        } else {
            self.groups(layout, source, expression.openings(), stray_annotation())
        }
    }

    /// The comments before an operand are printed where one of them has a meaning of its own.
    pub open spec fn attached_before_operand(
        self,
        layout: Layout,
        source: Option<Seq<char>>,
        expression: Expression,
    ) -> Page {
        if expression.pife() {
            self
        } else {
            self.attached_groups(layout, source, expression.openings_but_object())
        }
    }
}

/// Two ways to say which comments are asked for print the same.
proof fn lemma_groups_agree(
    page: Page,
    layout: Layout,
    source: Option<Seq<char>>,
    starts: Seq<u32>,
    p: spec_fn(Comment) -> bool,
    q: spec_fn(Comment) -> bool,
)
    requires
        forall|c: Comment| #[trigger] p(c) == q(c),
    ensures
        page.groups(layout, source, starts, p) == page.groups(layout, source, starts, q),
    decreases starts.len(),
{
    if starts.len() > 0 {
        let a = at(starts[0], leading(p));
        let b = at(starts[0], leading(q));
        assert forall|c: Comment| #[trigger] a(c) == b(c) by {
            assert(p(c) == q(c));
        }
        lemma_filter_agree(page.comments, a, b);
        lemma_filter_agree(page.comments, except(a), except(b));
        lemma_groups_agree(
            page.group(layout, source, starts[0], p),
            layout,
            source,
            starts.drop_first(),
            p,
            q,
        );
    }
}

/// Before an operand, the comments at each layer of its parentheses are printed: all but those
/// that steer tree shaking; or the annotations that have no place of their own; or, where one at
/// a layer has a meaning of its own, all at that layer, an object literal left out. A function to
/// be compiled at once keeps its comments.
pub proof fn law_operands(
    page: Page,
    layout: Layout,
    source: Option<Seq<char>>,
    expression: Expression,
)
    ensures
        ({
            let steady = |c: Comment|
                c.content != CommentContent::Pure && c.content != CommentContent::NoSideEffects;
            let stray = |c: Comment|
                match c.content {
                    CommentContent::PureNotApplied
                    | CommentContent::Webpack
                    | CommentContent::Vite
                    | CommentContent::CoverageIgnore
                    | CommentContent::Turbopack
                    | CommentContent::CoverageIgnoreFile => true,
                    CommentContent::PropertyKey => !leads(c),
                    _ => false,
                };
            let starts = expression.openings();
            let inner = expression.openings_but_object();
            let all = page.before_operand(layout, source, expression);
            let some = page.annotations_before_operand(layout, source, expression);
            let attached = page.attached_before_operand(layout, source, expression);
            if expression.pife() {
                all == page && some == page && attached == page
            } else {
                &&& all == page.groups(layout, source, starts, steady)
                &&& some == page.groups(layout, source, starts, stray)
                &&& attached == page.attached_groups(layout, source, inner)
            }
        }),
{
    let steady = |c: Comment|
        c.content != CommentContent::Pure && c.content != CommentContent::NoSideEffects;
    let stray = |c: Comment|
        match c.content {
            CommentContent::PureNotApplied
            | CommentContent::Webpack
            | CommentContent::Vite
            | CommentContent::CoverageIgnore
            | CommentContent::Turbopack
            | CommentContent::CoverageIgnoreFile => true,
            CommentContent::PropertyKey => !leads(c),
            _ => false,
        };
    let starts = expression.openings();
    lemma_groups_agree(page, layout, source, starts, except(semantic()), steady);
    lemma_groups_agree(page, layout, source, starts, stray_annotation(), stray);
}

/// The comments before an operand that are no longer pending are the leading ones at the start
/// of a layer, as far as they are asked for.
pub proof fn law_operand_comments_are_cleared(
    page: Page,
    layout: Layout,
    source: Option<Seq<char>>,
    expression: Expression,
    depth: nat,
    c: Comment,
)
    requires
        !expression.pife(),
        !(layer(expression, depth) is Parenthesized),
        forall|k: nat| k < depth ==> #[trigger] layer(expression, k) is Parenthesized,
    ensures
        page.before_operand(layout, source, expression).comments.contains(c)
            <==> page.comments.contains(c) && !(leads(c) && c.content != CommentContent::Pure
            && c.content != CommentContent::NoSideEffects && exists|k: nat|
            k <= depth && #[trigger] layer(expression, k).span().start == c.attached_to),
{
    let starts = expression.openings();
    let found = law_layers(expression);
    if found < depth {
        assert(layer(expression, found) is Parenthesized);
    }
    if depth < found {
        assert(layer(expression, depth) is Parenthesized);
    }
    law_openings_are_cleared(page, layout, source, starts, except(semantic()));
    let gone = opening(starts, except(semantic()));
    let left = page.comments.filter(except(gone));
    if starts.contains(c.attached_to) {
        let k = choose|k: int| 0 <= k < starts.len() && starts[k] == c.attached_to;
        assert(starts[k] == layer(expression, k as nat).span().start);
    }
    if exists|k: nat|
        k <= depth && #[trigger] layer(expression, k).span().start == c.attached_to {
        let k = choose|k: nat|
            k <= depth && #[trigger] layer(expression, k).span().start == c.attached_to;
        assert(starts[k as int] == c.attached_to);
    }
    lemma_filter_elements(page.comments, except(gone));
    if page.comments.contains(c) && !gone(c) {
        let i = choose|i: int| 0 <= i < page.comments.len() && page.comments[i] == c;
        page.comments.lemma_filter_contains(except(gone), i);
    }
    if left.contains(c) {
        let i = choose|i: int| 0 <= i < left.len() && left[i] == c;
        assert(except(gone)(left[i]));
    }
}

} // verus!
