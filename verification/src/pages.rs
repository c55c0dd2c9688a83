//! What the places that look before they print leave printed, and what they leave pending.
use vstd::prelude::*;

use crate::codegen::closed_off;
use crate::comment::{Comment, CommentContent, CommentKind, CommentPosition};
use crate::list::{by_start, start_le};
use crate::operands::Page;
use crate::order::{law_sort_by_orders, law_sort_by_permutes};
use crate::pending::{
    any, at, except, leading, lemma_filter_agree, lemma_filter_all, lemma_filter_none, semantic,
    some_of, trailing, within,
};
use crate::printer::{Layout, Output};
use crate::questions::leads;
use crate::rows::{is_row, law_comments_in_a_row, law_group_behind, spare_in_row};
use crate::selection::{
    attached, beside, claimed, html, lasting, normal, property_key, worth_trailing, AnnotationKind,
};
use crate::weaving::{is_group, law_group_is_woven, woven};

verus! {

impl Page {
    /// The trailing comments of a boundary are printed, where one of them is worth it; those
    /// in the HTML style stay.
    pub open spec fn behind(self, layout: Layout, source: Option<Seq<char>>, end: u32) -> Page {
        let taken = at(end, trailing(except(html(source))));
        if some_of(self.comments, at(end, trailing(worth_trailing(source)))) {
            Page {
                output: self.output.group_behind(layout, source, self.comments.filter(taken)),
                comments: self.comments.filter(except(taken)),
            }
        } else {
            self
        }
    }

    /// The annotation of a node is printed, in the words of the source where they are at hand.
    pub open spec fn annotated(
        self,
        layout: Layout,
        source: Option<Seq<char>>,
        start: u32,
        kind: AnnotationKind,
        newline_after: bool,
    ) -> Page {
        let taken = at(start, leading(beside(kind, newline_after)));
        if source is Some && some_of(
            self.comments,
            at(start, leading(claimed(kind, newline_after))),
        ) {
            let printed = self.output.spaced_comments(
                layout,
                source,
                by_start(self.comments.filter(taken)),
            );
            Page {
                output: if newline_after {
                    printed.newline()
                } else {
                    printed.str(" "@)
                },
                comments: self.comments.filter(except(taken)),
            }
        } else {
            Page { output: self.output.str(kind.canonical_text(newline_after)), ..self }
        }
    }

    /// The leading comments of a literal are printed, where one of them is a property-key
    /// annotation.
    pub open spec fn keyed(self, layout: Layout, source: Option<Seq<char>>, start: u32) -> Page {
        let taken = at(start, leading(any()));
        if some_of(self.comments, at(start, leading(property_key()))) {
            Page {
                output: self.output.group_resumed(layout, source, self.comments.filter(taken)),
                comments: self.comments.filter(except(taken)),
            }
        } else {
            self
        }
    }

    /// The leading comments of a boundary are printed.
    pub open spec fn led(self, layout: Layout, source: Option<Seq<char>>, start: u32) -> Page {
        let taken = at(start, leading(any()));
        Page {
            output: self.output.comments(layout, source, self.comments.filter(taken)),
            comments: self.comments.filter(except(taken)),
        }
    }

    /// The comments of a boundary are printed, but for those that steer tree shaking.
    pub open spec fn printed_at(
        self,
        layout: Layout,
        source: Option<Seq<char>>,
        start: u32,
    ) -> Page {
        let taken = at(start, except(semantic()));
        Page {
            output: self.output.comments(layout, source, by_start(self.comments.filter(taken))),
            comments: self.comments.filter(except(taken)),
        }
    }

    /// The leading comments of a boundary that have a meaning of their own are printed.
    pub open spec fn attached_at(
        self,
        layout: Layout,
        source: Option<Seq<char>>,
        start: u32,
    ) -> Page {
        let taken = at(start, leading(attached()));
        Page {
            output: self.output.group_glued(layout, source, self.comments.filter(taken)),
            comments: self.comments.filter(except(taken)),
        }
    }

    /// The leading normal comments of a boundary are printed.
    pub open spec fn normal_at(
        self,
        layout: Layout,
        source: Option<Seq<char>>,
        start: u32,
    ) -> Page {
        let taken = at(start, leading(normal()));
        Page {
            output: self.output.group_glued(layout, source, self.comments.filter(taken)),
            comments: self.comments.filter(except(taken)),
        }
    }

    /// The trailing normal comments of a boundary are printed.
    pub open spec fn normal_behind(
        self,
        layout: Layout,
        source: Option<Seq<char>>,
        end: u32,
    ) -> Page {
        let taken = at(end, trailing(normal()));
        Page {
            output: self.output.group_behind(layout, source, self.comments.filter(taken)),
            comments: self.comments.filter(except(taken)),
        }
    }

    /// The comments before a boundary that outlive their nodes are printed.
    pub open spec fn orphans_before(
        self,
        layout: Layout,
        source: Option<Seq<char>>,
        end: u32,
    ) -> Page {
        let taken = within(0, end - 1, lasting());
        Page {
            output: self.output.comments(
                layout,
                source,
                closed_off(by_start(self.comments.filter(taken))),
            ),
            comments: self.comments.filter(except(taken)),
        }
    }

    /// The comments between two boundaries are printed, but for those that steer tree shaking.
    pub open spec fn between(
        self,
        layout: Layout,
        source: Option<Seq<char>>,
        start: u32,
        end: u32,
    ) -> Page {
        let taken = within(start + 1, end - 1, except(semantic()));
        Page {
            output: self.output.comments(layout, source, by_start(self.comments.filter(taken))),
            comments: self.comments.filter(except(taken)),
        }
    }

    /// The comments of the boundaries from `first` to `last` are printed, as ones that have lost
    /// their nodes.
    pub open spec fn rest_within(
        self,
        layout: Layout,
        source: Option<Seq<char>>,
        first: u32,
        last: u32,
    ) -> Page {
        let taken = within(first as int, last as int, any());
        Page {
            output: self.output.left_over(layout, source, by_start(self.comments.filter(taken))),
            comments: self.comments.filter(except(taken)),
        }
    }

    /// The comments of a boundary are printed on lines of their own, but for those that steer
    /// tree shaking.
    pub open spec fn on_lines(self, layout: Layout, source: Option<Seq<char>>, start: u32) -> Page {
        let taken = at(start, except(semantic()));
        let own = by_start(self.comments.filter(taken));
        Page {
            output: if own.len() == 0 {
                self.output
            } else {
                self.output.stacked_comments(layout, source, own).newline()
            },
            comments: self.comments.filter(except(taken)),
        }
    }
}

/// Is the comment behind the boundary, and not in the HTML style?
pub open spec fn trails(source: Option<Seq<char>>, end: u32, c: Comment) -> bool {
    c.attached_to == end && c.position == CommentPosition::Trailing && !html(source)(c)
}

/// Where something of note stands behind a token, a normal comment or an annotation, of
/// whatever form, all that stands there is printed behind the token, each comment in its words
/// and in the order in which they are filed, and no longer pending; only what is in the HTML
/// style stays, and what stands elsewhere.
pub proof fn law_trailing_comments_are_printed(
    page: Page,
    layout: Layout,
    source: Option<Seq<char>>,
    end: u32,
    i: int,
) -> (found: (int, Seq<Comment>, Seq<Seq<char>>, Seq<Seq<char>>))
    requires
        0 <= i < page.comments.len(),
        trails(source, end, page.comments[i]),
        page.comments[i].content != CommentContent::Legal,
        page.comments[i].content != CommentContent::Jsdoc,
        page.comments[i].content != CommentContent::JsdocLegal,
    ensures
        ({
            let (k, taken, gaps, texts) = found;
            let after = page.behind(layout, source, end);
            let last = taken[taken.len() - 1];
            let lead: Seq<char> = if layout.minify {
                seq![]
            } else {
                seq![' ']
            };
            let tail: Seq<char> = if last.kind == CommentKind::Line || last.newlines.trailing {
                seq!['\n']
            } else {
                seq![]
            };
            &&& taken == page.comments.filter(|c: Comment| trails(source, end, c))
            &&& after.comments == page.comments.filter(|c: Comment| !trails(source, end, c))
            &&& 0 <= k < taken.len()
            &&& taken[k] == page.comments[i]
            &&& is_group(
                Output { text: page.output.text + lead, ..page.output },
                layout,
                source,
                taken,
                gaps,
                texts,
            )
            &&& after.output.text == page.output.text + lead + woven(gaps, texts) + tail
            &&& !after.output.pending_space
        }),
{
    let all = page.comments;
    let p = at(end, trailing(except(html(source))));
    let q = |c: Comment| trails(source, end, c);
    let not_q = |c: Comment| !trails(source, end, c);
    let taken = all.filter(p);
    assert(at(end, trailing(worth_trailing(source)))(all[i]));
    lemma_filter_agree(all, p, q);
    lemma_filter_agree(all, except(p), not_q);
    all.lemma_filter_contains(p, i);
    let k = choose|k: int| 0 <= k < taken.len() && taken[k] == all[i];
    let lead: Seq<char> = if layout.minify {
        seq![]
    } else {
        seq![' ']
    };
    let token = Output {
        text: if layout.minify {
            page.output.text
        } else {
            page.output.text.push(' ')
        },
        pending_space: page.output.pending_space,
    };
    law_group_behind(page.output, layout, source, taken);
    let (gaps, texts) = law_group_is_woven(token, layout, source, taken);
    assert(token.text =~= page.output.text + lead);
    let last = taken[taken.len() - 1];
    let tail: Seq<char> = if last.kind == CommentKind::Line || last.newlines.trailing {
        seq!['\n']
    } else {
        seq![]
    };
    assert(page.behind(layout, source, end).output.text =~= page.output.text + lead + woven(
        gaps,
        texts,
    ) + tail);
    (k, taken, gaps, texts)
}

/// Where nothing of note stands behind a token, nothing is printed, and all stays pending.
pub proof fn law_nothing_of_note_behind(
    page: Page,
    layout: Layout,
    source: Option<Seq<char>>,
    end: u32,
)
    requires
        forall|i: int|
            0 <= i < page.comments.len() && trails(source, end, #[trigger] page.comments[i])
                ==> page.comments[i].content == CommentContent::Legal || page.comments[i].content
                == CommentContent::Jsdoc || page.comments[i].content == CommentContent::JsdocLegal,
    ensures
        page.behind(layout, source, end) == page,
{
    let q = at(end, trailing(worth_trailing(source)));
    if some_of(page.comments, q) {
        let i = choose|i: int| 0 <= i < page.comments.len() && q(#[trigger] page.comments[i]);
        assert(trails(source, end, page.comments[i]));
    }
}

/// Is the comment a leading one of the boundary that can stand with an annotation of this kind?
/// It is not an annotation of the other kind, and no line comment where the line goes on.
pub open spec fn goes_with(
    start: u32,
    kind: AnnotationKind,
    newline_after: bool,
    c: Comment,
) -> bool {
    &&& c.attached_to == start
    &&& leads(c)
    &&& c.kind == CommentKind::Line ==> newline_after
    &&& c.content == CommentContent::Pure ==> kind == AnnotationKind::Pure
    &&& c.content == CommentContent::NoSideEffects ==> kind == AnnotationKind::NoSideEffects
}

/// The content of an annotation of this kind.
pub open spec fn content_of(kind: AnnotationKind) -> CommentContent {
    match kind {
        AnnotationKind::Pure => CommentContent::Pure,
        AnnotationKind::NoSideEffects => CommentContent::NoSideEffects,
    }
}

/// Where the boundary of a node has an annotation of the kind that it needs, and one that can
/// stand there, the annotation is printed in the words of the source, in a row with the other
/// comments that can stand with it, in the order of the source. Those are no longer pending;
/// all others are.
pub proof fn law_annotation_from_source(
    page: Page,
    layout: Layout,
    text: Seq<char>,
    start: u32,
    kind: AnnotationKind,
    newline_after: bool,
    i: int,
) -> (found: (int, Seq<Comment>, Seq<Seq<char>>, Seq<Seq<char>>))
    requires
        0 <= i < page.comments.len(),
        page.comments[i].content == content_of(kind),
        goes_with(start, kind, newline_after, page.comments[i]),
    ensures
        ({
            let (k, taken, gaps, texts) = found;
            let after = page.annotated(layout, Some(text), start, kind, newline_after);
            &&& taken.to_multiset() == page.comments.filter(
                |c: Comment| goes_with(start, kind, newline_after, c),
            ).to_multiset()
            &&& forall|a: int, b: int|
                0 <= a < b < taken.len() ==> (#[trigger] taken[a]).span.start <= (
                #[trigger] taken[b]).span.start
            &&& after.comments == page.comments.filter(
                |c: Comment| !goes_with(start, kind, newline_after, c),
            )
            &&& 0 <= k < taken.len() == gaps.len()
            &&& taken[k] == page.comments[i]
            &&& is_row(layout, page.output.pending_space, Some(text), taken, false, texts)
            &&& forall|m: int|
                0 <= m < taken.len() ==> #[trigger] gaps[m] == (if m == 0 {
                    seq![]
                } else {
                    seq![' ']
                })
            &&& after.output.text == (page.output.text + woven(gaps, texts)).push(
                if newline_after {
                    '\n'
                } else {
                    ' '
                },
            )
            &&& after.output.pending_space == spare_in_row(
                layout,
                page.output.pending_space,
                Some(text),
                taken,
                false,
                taken.len() as int,
            )
        }),
{
    broadcast use vstd::seq_lib::group_to_multiset_ensures;

    let all = page.comments;
    let p = at(start, leading(beside(kind, newline_after)));
    let q = |c: Comment| goes_with(start, kind, newline_after, c);
    let not_q = |c: Comment| !goes_with(start, kind, newline_after, c);
    let unsorted = all.filter(p);
    let taken = by_start(unsorted);
    assert(at(start, leading(claimed(kind, newline_after)))(all[i]));
    lemma_filter_agree(all, p, q);
    lemma_filter_agree(all, except(p), not_q);
    all.lemma_filter_contains(p, i);
    law_sort_by_permutes(unsorted, start_le());
    law_sort_by_orders(unsorted, start_le());
    assert forall|a: int, b: int| 0 <= a < b < taken.len() implies (
    #[trigger] taken[a]).span.start <= (#[trigger] taken[b]).span.start by {
        assert(start_le()(taken[a], taken[b]));
    }
    assert(unsorted.to_multiset().count(all[i]) > 0);
    assert(taken.contains(all[i]));
    let k = choose|k: int| 0 <= k < taken.len() && taken[k] == all[i];
    let (gaps, texts) = law_comments_in_a_row(page.output, layout, Some(text), taken);
    reveal_strlit(" ");
    let printed = page.output.spaced_comments(layout, Some(text), taken);
    assert(printed.text + " "@ =~= printed.text.push(' '));
    (k, taken, gaps, texts)
}

/// Where the boundary of a node has no annotation of the kind that it needs, or only one that
/// cannot stand there, or the source is not at hand, the annotation is printed in words of its
/// own, and all comments stay pending.
pub proof fn law_annotation_without_source(
    page: Page,
    layout: Layout,
    source: Option<Seq<char>>,
    start: u32,
    kind: AnnotationKind,
    newline_after: bool,
)
    requires
        source is None || forall|i: int|
            0 <= i < page.comments.len() && (#[trigger] page.comments[i]).content == content_of(kind)
                ==> !goes_with(start, kind, newline_after, page.comments[i]),
    ensures
        ({
            let after = page.annotated(layout, source, start, kind, newline_after);
            let words = match kind {
                AnnotationKind::Pure => "/* @__PURE__ */"@,
                AnnotationKind::NoSideEffects => "/* @__NO_SIDE_EFFECTS__ */"@,
            };
            &&& after.comments == page.comments
            &&& after.output.text == page.output.text + words.push(
                if newline_after {
                    '\n'
                } else {
                    ' '
                },
            )
            &&& after.output.pending_space == page.output.pending_space
        }),
{
    crate::questions::law_canonical_words(kind, newline_after);
    let q = at(start, leading(claimed(kind, newline_after)));
    if some_of(page.comments, q) {
        let i = choose|i: int| 0 <= i < page.comments.len() && q(#[trigger] page.comments[i]);
        assert(page.comments[i].content == content_of(kind));
    }
}

/// Where a literal has a leading property-key annotation, all its leading comments are printed,
/// and no longer pending; otherwise nothing happens.
pub proof fn law_property_keys(
    page: Page,
    layout: Layout,
    source: Option<Seq<char>>,
    start: u32,
)
    ensures
        ({
            let after = page.keyed(layout, source, start);
            let own = |c: Comment| c.attached_to == start && leads(c);
            let others = |c: Comment| !(c.attached_to == start && leads(c));
            if exists|i: int|
                0 <= i < page.comments.len() && own(#[trigger] page.comments[i])
                    && page.comments[i].content == CommentContent::PropertyKey {
                &&& after.comments == page.comments.filter(others)
                &&& after.output == page.output.group_resumed(
                    layout,
                    source,
                    page.comments.filter(own),
                )
            } else {
                after == page
            }
        }),
{
    let all = page.comments;
    let own = |c: Comment| c.attached_to == start && leads(c);
    let others = |c: Comment| !(c.attached_to == start && leads(c));
    let p = at(start, leading(any()));
    let q = at(start, leading(property_key()));
    lemma_filter_agree(all, p, own);
    lemma_filter_agree(all, except(p), others);
    if some_of(all, q) {
        let i = choose|i: int| 0 <= i < all.len() && q(#[trigger] all[i]);
        assert(own(all[i]) && all[i].content == CommentContent::PropertyKey);
    }
    if exists|i: int|
        0 <= i < all.len() && own(#[trigger] all[i]) && all[i].content
            == CommentContent::PropertyKey {
        let i = choose|i: int|
            0 <= i < all.len() && own(#[trigger] all[i]) && all[i].content
                == CommentContent::PropertyKey;
        assert(q(all[i]));
    }
}

/// Does the comment steer tree shaking?
pub open spec fn steers(c: Comment) -> bool {
    c.content == CommentContent::Pure || c.content == CommentContent::NoSideEffects
}

/// Two ways to say which comments are taken leave the same and take the same.
proof fn lemma_taken(
    all: Seq<Comment>,
    p: spec_fn(Comment) -> bool,
    q: spec_fn(Comment) -> bool,
    not_q: spec_fn(Comment) -> bool,
)
    requires
        forall|c: Comment| #[trigger] p(c) == q(c),
        forall|c: Comment| #[trigger] not_q(c) == !q(c),
    ensures
        all.filter(p) == all.filter(q),
        all.filter(except(p)) == all.filter(not_q),
{
    lemma_filter_agree(all, p, q);
    lemma_filter_agree(all, except(p), not_q);
}

/// At the start of a node, its leading comments are printed as a group, and no others.
pub proof fn law_leading_comments(
    page: Page,
    layout: Layout,
    source: Option<Seq<char>>,
    start: u32,
)
    ensures
        ({
            let own = |c: Comment| c.attached_to == start && leads(c);
            let others = |c: Comment| !(c.attached_to == start && leads(c));
            page.led(layout, source, start) == (Page {
                output: page.output.comments(layout, source, page.comments.filter(own)),
                comments: page.comments.filter(others),
            })
        }),
{
    let own = |c: Comment| c.attached_to == start && leads(c);
    let others = |c: Comment| !(c.attached_to == start && leads(c));
    lemma_taken(page.comments, at(start, leading(any())), own, others);
}

/// At a boundary, all comments but those that steer tree shaking are printed as a group, in the
/// order of the source, whichever side they stand on.
pub proof fn law_comments_at(
    page: Page,
    layout: Layout,
    source: Option<Seq<char>>,
    start: u32,
)
    ensures
        ({
            let own = |c: Comment| c.attached_to == start && !steers(c);
            let others = |c: Comment| !(c.attached_to == start && !steers(c));
            let taken = by_start(page.comments.filter(own));
            &&& page.printed_at(layout, source, start) == (Page {
                output: page.output.comments(layout, source, taken),
                comments: page.comments.filter(others),
            })
            &&& page.on_lines(layout, source, start).comments == page.comments.filter(others)
            &&& taken.len() == 0 ==> page.on_lines(layout, source, start).output == page.output
            &&& taken.len() > 0 ==> page.on_lines(layout, source, start).output.text
                == page.output.stacked_comments(layout, source, taken).text.push('\n')
        }),
{
    let own = |c: Comment| c.attached_to == start && !steers(c);
    let others = |c: Comment| !(c.attached_to == start && !steers(c));
    lemma_taken(page.comments, at(start, except(semantic())), own, others);
}

/// At a node, the leading comments with a meaning of their own are printed within the line: jsdoc
/// and annotations, but for those that steer tree shaking, or would, and property keys.
pub proof fn law_attached_comments_at(
    page: Page,
    layout: Layout,
    source: Option<Seq<char>>,
    start: u32,
)
    ensures
        ({
            let own = |c: Comment|
                c.attached_to == start && leads(c) && match c.content {
                    CommentContent::Jsdoc
                    | CommentContent::JsdocLegal
                    | CommentContent::Webpack
                    | CommentContent::Vite
                    | CommentContent::CoverageIgnore
                    | CommentContent::Turbopack
                    | CommentContent::CoverageIgnoreFile => true,
                    _ => false,
                };
            let others = |c: Comment| !own(c);
            page.attached_at(layout, source, start) == (Page {
                output: page.output.group_glued(layout, source, page.comments.filter(own)),
                comments: page.comments.filter(others),
            })
        }),
{
    let own = |c: Comment|
        c.attached_to == start && leads(c) && match c.content {
            CommentContent::Jsdoc
            | CommentContent::JsdocLegal
            | CommentContent::Webpack
            | CommentContent::Vite
            | CommentContent::CoverageIgnore
            | CommentContent::Turbopack
            | CommentContent::CoverageIgnoreFile => true,
            _ => false,
        };
    let others = |c: Comment| !own(c);
    lemma_taken(page.comments, at(start, leading(attached())), own, others);
}

/// Normal comments are printed before or behind a token, whatever their form, and no others with
/// them.
pub proof fn law_normal_comments(
    page: Page,
    layout: Layout,
    source: Option<Seq<char>>,
    place: u32,
)
    ensures
        ({
            let before = |c: Comment|
                c.attached_to == place && leads(c) && c.content == CommentContent::Plain;
            let not_before = |c: Comment|
                !(c.attached_to == place && leads(c) && c.content == CommentContent::Plain);
            let behind = |c: Comment|
                c.attached_to == place && !leads(c) && c.content == CommentContent::Plain;
            let not_behind = |c: Comment|
                !(c.attached_to == place && !leads(c) && c.content == CommentContent::Plain);
            &&& page.normal_at(layout, source, place) == (Page {
                output: page.output.group_glued(layout, source, page.comments.filter(before)),
                comments: page.comments.filter(not_before),
            })
            &&& page.normal_behind(layout, source, place) == (Page {
                output: page.output.group_behind(layout, source, page.comments.filter(behind)),
                comments: page.comments.filter(not_behind),
            })
        }),
{
    let before = |c: Comment|
        c.attached_to == place && leads(c) && c.content == CommentContent::Plain;
    let not_before = |c: Comment|
        !(c.attached_to == place && leads(c) && c.content == CommentContent::Plain);
    let behind = |c: Comment|
        c.attached_to == place && !leads(c) && c.content == CommentContent::Plain;
    let not_behind = |c: Comment|
        !(c.attached_to == place && !leads(c) && c.content == CommentContent::Plain);
    lemma_taken(page.comments, at(place, leading(normal())), before, not_before);
    lemma_taken(page.comments, at(place, trailing(normal())), behind, not_behind);
}

/// Comments that outlive their nodes are printed before the next boundary, in the order of the
/// source and with a line break behind them: leading ones that are legal or speak of the whole
/// file.
pub proof fn law_orphans(page: Page, layout: Layout, source: Option<Seq<char>>, end: u32)
    ensures
        ({
            let own = |c: Comment|
                c.attached_to < end && leads(c) && (c.content == CommentContent::Legal || c.content
                    == CommentContent::JsdocLegal || c.content
                    == CommentContent::CoverageIgnoreFile);
            let others = |c: Comment| !own(c);
            page.orphans_before(layout, source, end) == (Page {
                output: page.output.comments(
                    layout,
                    source,
                    closed_off(by_start(page.comments.filter(own))),
                ),
                comments: page.comments.filter(others),
            })
        }),
{
    let own = |c: Comment|
        c.attached_to < end && leads(c) && (c.content == CommentContent::Legal || c.content
            == CommentContent::JsdocLegal || c.content == CommentContent::CoverageIgnoreFile);
    let others = |c: Comment| !own(c);
    lemma_taken(page.comments, within(0, end - 1, lasting()), own, others);
}

/// Between two boundaries, all comments but those that steer tree shaking are printed, in the
/// order of the source; the boundaries themselves keep theirs.
pub proof fn law_comments_between(
    page: Page,
    layout: Layout,
    source: Option<Seq<char>>,
    start: u32,
    end: u32,
)
    ensures
        ({
            let own = |c: Comment| start < c.attached_to && c.attached_to < end && !steers(c);
            let others = |c: Comment| !(start < c.attached_to && c.attached_to < end && !steers(c));
            page.between(layout, source, start, end) == (Page {
                output: page.output.comments(
                    layout,
                    source,
                    by_start(page.comments.filter(own)),
                ),
                comments: page.comments.filter(others),
            })
        }),
{
    let own = |c: Comment| start < c.attached_to && c.attached_to < end && !steers(c);
    let others = |c: Comment| !(start < c.attached_to && c.attached_to < end && !steers(c));
    lemma_taken(page.comments, within(start + 1, end - 1, except(semantic())), own, others);
}

/// What is left in a span, its ends included, is printed to the last comment, in the order of the
/// source.
pub proof fn law_rest(
    page: Page,
    layout: Layout,
    source: Option<Seq<char>>,
    first: u32,
    last: u32,
)
    ensures
        ({
            let own = |c: Comment| first <= c.attached_to && c.attached_to <= last;
            let others = |c: Comment| c.attached_to < first || last < c.attached_to;
            page.rest_within(layout, source, first, last) == (Page {
                output: page.output.left_over(
                    layout,
                    source,
                    by_start(page.comments.filter(own)),
                ),
                comments: page.comments.filter(others),
            })
        }),
        page.rest_within(layout, source, 0, u32::MAX) == (Page {
            output: page.output.left_over(layout, source, by_start(page.comments)),
            comments: Seq::<Comment>::empty(),
        }),
{
    let own = |c: Comment| first <= c.attached_to && c.attached_to <= last;
    let others = |c: Comment| c.attached_to < first || last < c.attached_to;
    lemma_taken(page.comments, within(first as int, last as int, any()), own, others);
    let every = within(0, u32::MAX as int, any());
    lemma_filter_all(page.comments, every);
    lemma_filter_none(page.comments, except(every));
}

} // verus!
