//! The comments that wait to be printed, filed under the source boundaries that own them.
use vstd::prelude::*;

use crate::comment::Comment;
use crate::list::{by_start, CommentList};
use crate::order::{law_sort_by_orders, lemma_insert_by_at, ordered_by, sort_by};
use crate::pending::{
    answers, any, at, contents, decides, except, filed, groups_ok, is_nearest, leading,
    lemma_both_thinned, lemma_filed_sides, lemma_filter_all, lemma_filter_none,
    lemma_filter_ordered, lemma_filter_some, lemma_found_before, lemma_group_at,
    lemma_leading_thinned, lemma_nearest_found, lemma_nearest_missing, lemma_no_group_at,
    lemma_none_before, lemma_pending_add, lemma_range_taken, lemma_range_thinned,
    lemma_some_of_sides, lemma_still_filed, lemma_store_le_total, lemma_taken_at,
    lemma_trailing_thinned, pending, semantic, some_of, store_le, thinned, trailing, within,
    CommentGroup,
};

verus! {

/// The comments that have not been printed yet.
pub struct CommentStore {
    /// The boundaries, ascending. A group whose comments have all been taken may remain.
    pub groups: Vec<CommentGroup>,
}

/// Takes the comments that the predicate holds of off the list; both parts keep their order.
pub fn take_matching<F: Fn(&Comment) -> bool>(comments: &mut CommentList, predicate: F) -> (taken:
    CommentList)
    requires
        answers(predicate),
    ensures
        forall|p: spec_fn(Comment) -> bool| #[trigger]
            decides(predicate, p) ==> taken@ == old(comments)@.filter(p) && final(comments)@
                == old(comments)@.filter(except(p)),
{
    let mut taken: CommentList = CommentList::new();
    let mut kept: CommentList = CommentList::new();
    let ghost all = comments@;
    {
        let items: &[Comment] = comments.as_slice();
        let mut i: usize = 0;
        proof {
            reveal(Seq::filter);
            assert(items@.take(0) =~= Seq::<Comment>::empty());
        }
        while i < items.len()
            invariant
                i <= items@.len(),
                items@ == all,
                answers(predicate),
                forall|p: spec_fn(Comment) -> bool| #[trigger]
                    decides(predicate, p) ==> taken@ == items@.take(i as int).filter(p) && kept@
                        == items@.take(i as int).filter(except(p)),
            decreases items@.len() - i,
        {
            let comment: Comment = items[i];
            let ghost before = taken@;
            let ghost kept_before = kept@;
            assert(call_requires(predicate, (&comment,)));
            if predicate(&comment) {
                taken.push(comment);
                assert(call_ensures(predicate, (&comment,), true));
            } else {
                kept.push(comment);
                assert(call_ensures(predicate, (&comment,), false));
            }
            assert forall|p: spec_fn(Comment) -> bool| #[trigger]
                decides(predicate, p) implies taken@ == items@.take(i + 1).filter(p) && kept@
                == items@.take(i + 1).filter(except(p)) by {
                reveal(Seq::filter);
                assert(items@.take(i + 1).drop_last() =~= items@.take(i as int));
            }
            i = i + 1;
        }
        assert(items@.take(items@.len() as int) =~= items@);
    }
    *comments = kept;
    taken
}

/// Holds of any comment.
fn whichever(_comment: &Comment) -> (b: bool)
    ensures
        b,
{
    true
}

/// Does the predicate hold of a comment of the list?
pub fn any_matching<F: Fn(&Comment) -> bool>(comments: &CommentList, predicate: F) -> (found: bool)
    requires
        answers(predicate),
    ensures
        forall|p: spec_fn(Comment) -> bool| #[trigger]
            decides(predicate, p) ==> found == some_of(comments@, p),
{
    let items: &[Comment] = comments.as_slice();
    let mut i: usize = 0;
    while i < items.len()
        invariant
            i <= items@.len(),
            items@ == comments@,
            answers(predicate),
            forall|p: spec_fn(Comment) -> bool, k: int|
                #![trigger decides(predicate, p), items@[k]]
                decides(predicate, p) && 0 <= k < i ==> !p(items@[k]),
        decreases items@.len() - i,
    {
        let comment: Comment = items[i];
        assert(call_requires(predicate, (&comment,)));
        if predicate(&comment) {
            assert(call_ensures(predicate, (&comment,), true));
            assert forall|p: spec_fn(Comment) -> bool| #[trigger] decides(predicate, p) implies
                some_of(comments@, p) by {
                assert(p(comments@[i as int]));
            }
            return true;
        }
        assert(call_ensures(predicate, (&comment,), false));
        assert forall|p: spec_fn(Comment) -> bool, k: int|
            #![trigger decides(predicate, p), items@[k]]
            decides(predicate, p) && 0 <= k < i + 1 implies !p(items@[k]) by {
            if k == i {
                assert(items@[k] == comment);
            }
        }
        i = i + 1;
    }
    assert forall|p: spec_fn(Comment) -> bool| #[trigger] decides(predicate, p) implies !some_of(
        comments@,
        p,
    ) by {
        assert forall|k: int| 0 <= k < comments@.len() implies !p(#[trigger] comments@[k]) by {
            assert(!p(items@[k]));
        }
    }
    false
}

/// The comments in the order of the store.
fn sorted_for_store(comments: &Vec<Comment>) -> (sorted: Vec<Comment>)
    ensures
        sorted@ == sort_by(comments@, store_le()),
{
    let mut sorted: Vec<Comment> = Vec::new();
    let mut i: usize = 0;
    assert(comments@.take(0) =~= Seq::<Comment>::empty());
    while i < comments.len()
        invariant
            i <= comments@.len(),
            sorted@ == sort_by(comments@.take(i as int), store_le()),
        decreases comments@.len() - i,
    {
        let comment: Comment = comments[i];
        let ghost placed = sorted@;
        let mut at: usize = sorted.len();
        while at > 0 && !comes_first(sorted[at - 1], comment)
            invariant
                at <= sorted@.len(),
                sorted@ == placed,
                forall|k: int|
                    at <= k < placed.len() ==> !store_le()(#[trigger] placed[k], comment),
            decreases at,
        {
            at = at - 1;
        }
        sorted.insert(at, comment);
        proof {
            lemma_insert_by_at(placed, comment, store_le(), at as int);
            assert(comments@.take(i + 1).drop_last() =~= comments@.take(i as int));
        }
        i = i + 1;
    }
    assert(comments@.take(comments@.len() as int) =~= comments@);
    sorted
}

/// Files a comment that comes behind all filed ones: in the last group, where that is the
/// group of its boundary, otherwise in a new group.
fn file(groups: &mut Vec<CommentGroup>, comment: Comment)
    requires
        groups_ok(old(groups)@),
        old(groups)@.len() > 0 ==> {
            &&& old(groups)@.last().anchor <= comment.attached_to
            &&& old(groups)@.last().anchor == comment.attached_to && comment.is_leading()
                ==> old(groups)@.last().trailing@.len() == 0
        },
    ensures
        groups_ok(final(groups)@),
        pending(final(groups)@) == pending(old(groups)@).push(comment),
        final(groups)@.len() > 0,
        final(groups)@.last().anchor == comment.attached_to,
        comment.is_leading() ==> final(groups)@.last().trailing@.len() == 0,
        forall|g: int|
            0 <= g < final(groups)@.len() - 1 ==> #[trigger] final(groups)@[g] == old(groups)@[g],
        contents(final(groups)@.last()).len() > 0,
        final(groups)@.len() >= old(groups)@.len(),
        final(groups)@.len() <= old(groups)@.len() + 1,
{
    let ghost before = groups@;
    if groups.len() == 0 || groups[groups.len() - 1].anchor != comment.attached_to {
        let mut group = CommentGroup {
            anchor: comment.attached_to,
            leading: CommentList::new(),
            trailing: CommentList::new(),
        };
        if comment.is_leading() {
            group.leading.push(comment);
        } else {
            group.trailing.push(comment);
        }
        assert(contents(group) =~= seq![comment]);
        groups.push(group);
        proof {
            assert(groups@.drop_last() =~= before);
            assert(pending(groups@) =~= pending(before).push(comment));
            assert forall|g: int, h: int| 0 <= g < h < groups@.len() implies (
            #[trigger] groups@[g]).anchor < (#[trigger] groups@[h]).anchor by {
                assert(groups@[g] == before[g]);
                if h == before.len() {
                    if g < before.len() - 1 {
                        assert(before[g].anchor < before[before.len() - 1].anchor);
                    }
                } else {
                    assert(before[g].anchor < before[h].anchor);
                }
            }
            assert forall|g: int| 0 <= g < groups@.len() implies filed(#[trigger] groups@[g]) by {
                if g < before.len() {
                    assert(filed(before[g]));
                }
            }
        }
    } else {
        let last: usize = groups.len() - 1;
        assert(filed(before[last as int]));
        if comment.is_leading() {
            groups[last].leading.push(comment);
        } else {
            groups[last].trailing.push(comment);
        }
        proof {
            let n = groups@[last as int];
            assert(groups@ =~= before.update(last as int, n));
            assert(groups@.drop_last() =~= before.drop_last());
            assert(contents(n) =~= contents(before[last as int]).push(comment));
            assert(pending(groups@) =~= pending(before).push(comment));
            assert forall|g: int| 0 <= g < groups@.len() implies filed(#[trigger] groups@[g]) by {
                assert(filed(before[g]));
            }
            assert forall|g: int, h: int| 0 <= g < h < groups@.len() implies (
            #[trigger] groups@[g]).anchor < (#[trigger] groups@[h]).anchor by {
                assert(before[g].anchor < before[h].anchor);
            }
        }
    }
}

/// Does the store keep `a` before `b`, or is either order right?
fn comes_first(a: Comment, b: Comment) -> (first: bool)
    ensures
        first == store_le()(a, b),
{
    a.attached_to < b.attached_to || (a.attached_to == b.attached_to && ((a.is_leading()
        && !b.is_leading()) || (a.is_leading() == b.is_leading() && a.span.start <= b.span.start)))
}

impl View for CommentStore {
    type V = Seq<Comment>;

    /// The comments that have not been printed yet.
    open spec fn view(&self) -> Seq<Comment> {
        pending(self.groups@)
    }
}

impl Default for CommentStore {
    fn default() -> (store: CommentStore)
        ensures
            store.wf(),
            store@ == Seq::<Comment>::empty(),
    {
        CommentStore { groups: Vec::new() }
    }
}

impl CommentStore {
    /// The comments are filed, and in order.
    pub open spec fn wf(&self) -> bool {
        &&& groups_ok(self.groups@)
        &&& ordered_by(self@, store_le())
    }

    /// Files the comments, and leaves none of them behind.
    pub fn build(comments: &mut Vec<Comment>) -> (store: CommentStore)
        ensures
            store.wf(),
            store@ == sort_by(old(comments)@, store_le()),
            forall|g: int|
                0 <= g < store.groups@.len() ==> contents(#[trigger] store.groups@[g]).len() > 0,
            final(comments)@ == Seq::<Comment>::empty(),
    {
        let sorted: Vec<Comment> = sorted_for_store(comments);
        comments.clear();
        proof {
            lemma_store_le_total();
            law_sort_by_orders(old(comments)@, store_le());
        }
        let mut groups: Vec<CommentGroup> = Vec::new();
        let mut i: usize = 0;
        assert(sorted@.take(0) =~= Seq::<Comment>::empty());
        while i < sorted.len()
            invariant
                i <= sorted@.len(),
                ordered_by(sorted@, store_le()),
                groups_ok(groups@),
                pending(groups@) == sorted@.take(i as int),
                forall|g: int|
                    0 <= g < groups@.len() ==> contents(#[trigger] groups@[g]).len() > 0,
                groups@.len() > 0 <==> i > 0,
                i > 0 ==> groups@.last().anchor == sorted@[i - 1].attached_to,
                i > 0 && sorted@[i - 1].is_leading() ==> groups@.last().trailing@.len() == 0,
            decreases sorted@.len() - i,
        {
            let comment: Comment = sorted[i];
            proof {
                if i > 0 {
                    assert(store_le()(sorted@[i - 1], sorted@[i as int]));
                }
            }
            let ghost before = groups@;
            file(&mut groups, comment);
            assert forall|g: int| 0 <= g < groups@.len() implies contents(
                #[trigger] groups@[g],
            ).len() > 0 by {
                if g < groups@.len() - 1 {
                    assert(groups@[g] == before[g]);
                }
            }
            assert(sorted@.take(i + 1) =~= sorted@.take(i as int).push(comment));
            i = i + 1;
        }
        assert(sorted@.take(sorted@.len() as int) =~= sorted@);
        CommentStore { groups }
    }

    /// Finds the group of a boundary, or the place where it would stand.
    pub fn index(&self, anchor: u32) -> (found: Result<usize, usize>)
        requires
            groups_ok(self.groups@),
        ensures
            found matches Ok(g) ==> g < self.groups@.len() && self.groups@[g as int].anchor
                == anchor,
            found matches Err(g) ==> g <= self.groups@.len() && (forall|h: int|
                0 <= h < g ==> (#[trigger] self.groups@[h]).anchor < anchor) && (forall|h: int|
                g <= h < self.groups@.len() ==> anchor < (#[trigger] self.groups@[h]).anchor),
    {
        let g: usize = self.first_from(anchor);
        if g < self.groups.len() && self.groups[g].anchor == anchor {
            return Ok(g);
        }
        assert forall|h: int| g <= h < self.groups@.len() implies anchor < (
        #[trigger] self.groups@[h]).anchor by {
            if h > g {
                assert(self.groups@[g as int].anchor < self.groups@[h].anchor);
            }
        }
        Err(g)
    }

    /// The first group whose boundary is not before `bound`.
    fn first_from(&self, bound: u32) -> (first: usize)
        requires
            groups_ok(self.groups@),
        ensures
            first <= self.groups@.len(),
            forall|g: int| 0 <= g < first ==> (#[trigger] self.groups@[g]).anchor < bound,
            forall|g: int|
                first <= g < self.groups@.len() ==> bound <= (#[trigger] self.groups@[g]).anchor,
    {
        let mut low: usize = 0;
        let mut high: usize = self.groups.len();
        while low < high
            invariant
                low <= high <= self.groups@.len(),
                groups_ok(self.groups@),
                forall|g: int| 0 <= g < low ==> (#[trigger] self.groups@[g]).anchor < bound,
                forall|g: int|
                    high <= g < self.groups@.len() ==> bound <= (#[trigger] self.groups@[g]).anchor,
            decreases high - low,
        {
            let mid: usize = low + (high - low) / 2;
            if self.groups[mid].anchor < bound {
                low = mid + 1;
            } else {
                high = mid;
            }
        }
        low
    }

    /// The first group whose boundary is behind `bound`.
    fn first_behind(&self, bound: u32) -> (first: usize)
        requires
            groups_ok(self.groups@),
        ensures
            first <= self.groups@.len(),
            forall|g: int| 0 <= g < first ==> (#[trigger] self.groups@[g]).anchor <= bound,
            forall|g: int|
                first <= g < self.groups@.len() ==> bound < (#[trigger] self.groups@[g]).anchor,
    {
        let mut low: usize = 0;
        let mut high: usize = self.groups.len();
        while low < high
            invariant
                low <= high <= self.groups@.len(),
                groups_ok(self.groups@),
                forall|g: int| 0 <= g < low ==> (#[trigger] self.groups@[g]).anchor <= bound,
                forall|g: int|
                    high <= g < self.groups@.len() ==> bound < (#[trigger] self.groups@[g]).anchor,
            decreases high - low,
        {
            let mid: usize = low + (high - low) / 2;
            if self.groups[mid].anchor <= bound {
                low = mid + 1;
            } else {
                high = mid;
            }
        }
        low
    }

    /// The first group whose boundary is not before `start`, and the first whose boundary is not
    /// before `end`, or, where `inclusive`, is behind it.
    pub fn bounds(&self, start: u32, end: u32, inclusive: bool) -> (range: (usize, usize))
        requires
            groups_ok(self.groups@),
        ensures
            range.0 <= self.groups@.len(),
            range.1 <= self.groups@.len(),
            forall|g: int|
                0 <= g < self.groups@.len() ==> (g < range.0 <==> (
                #[trigger] self.groups@[g]).anchor < start),
            forall|g: int|
                0 <= g < self.groups@.len() ==> (g < range.1 <==> (
                #[trigger] self.groups@[g]).anchor < end || (inclusive && self.groups@[g].anchor
                    == end)),
            start <= end ==> range.0 <= range.1,
    {
        let first: usize = self.first_from(start);
        let last: usize = if inclusive {
            self.first_behind(end)
        } else {
            self.first_from(end)
        };
        assert(start <= end ==> first <= last) by {
            if last < first {
                assert(self.groups@[last as int].anchor < start);
            }
        }
        (first, last)
    }

    /// Does a boundary own a comment that does not steer tree shaking?
    pub fn has_non_semantic_at(&self, anchor: u32) -> (found: bool)
        requires
            self.wf(),
        ensures
            found == some_of(self@, at(anchor, except(semantic()))),
    {
        let predicate = |c: &Comment| -> (b: bool)
            ensures
                b == !c.is_semantic(),
            { !c.is_pure() && !c.is_no_side_effects() };
        let ghost p = except(semantic());
        proof {
            assert(decides(predicate, p));
            lemma_filter_some(self@, at(anchor, p));
        }
        match self.index(anchor) {
            Ok(g) => {
                let group: &CommentGroup = &self.groups[g];
                proof {
                    lemma_group_at(self.groups@, g as int, p);
                    assert(filed(self.groups@[g as int]));
                    lemma_filed_sides(self.groups@[g as int], p);
                    lemma_filter_some(group.leading@, p);
                    lemma_filter_some(group.trailing@, p);
                }
                any_matching(&group.leading, predicate) || any_matching(&group.trailing, predicate)
            },
            Err(_) => {
                proof {
                    lemma_no_group_at(self.groups@, anchor, p);
                }
                false
            },
        }
    }

    /// The leading comments of a boundary, if it has any.
    pub fn leading_at(&self, anchor: u32) -> (list: Option<&CommentList>)
        requires
            self.wf(),
        ensures
            list is Some <==> some_of(self@, at(anchor, leading(any()))),
            list matches Some(l) ==> l@ == self@.filter(at(anchor, leading(any()))),
    {
        proof {
            lemma_filter_some(self@, at(anchor, leading(any())));
        }
        match self.index(anchor) {
            Ok(g) => {
                let group: &CommentGroup = &self.groups[g];
                proof {
                    lemma_group_at(self.groups@, g as int, any());
                    lemma_filter_all(group.leading@, any());
                }
                if group.leading.is_empty() {
                    None
                } else {
                    Some(&group.leading)
                }
            },
            Err(_) => {
                proof {
                    lemma_no_group_at(self.groups@, anchor, leading(any()));
                }
                None
            },
        }
    }

    /// The trailing comments of a boundary, if it has any.
    pub fn trailing_at(&self, anchor: u32) -> (list: Option<&CommentList>)
        requires
            self.wf(),
        ensures
            list is Some <==> some_of(self@, at(anchor, trailing(any()))),
            list matches Some(l) ==> l@ == self@.filter(at(anchor, trailing(any()))),
    {
        proof {
            lemma_filter_some(self@, at(anchor, trailing(any())));
        }
        match self.index(anchor) {
            Ok(g) => {
                let group: &CommentGroup = &self.groups[g];
                proof {
                    lemma_group_at(self.groups@, g as int, any());
                    lemma_filter_all(group.trailing@, any());
                }
                if group.trailing.is_empty() {
                    None
                } else {
                    Some(&group.trailing)
                }
            },
            Err(_) => {
                proof {
                    lemma_no_group_at(self.groups@, anchor, trailing(any()));
                }
                None
            },
        }
    }

    /// Takes the leading comments of a boundary, if it has any.
    pub fn take_leading_at(&mut self, anchor: u32) -> (list: Option<CommentList>)
        requires
            old(self).wf(),
        ensures
            final(self).wf(),
            list is Some <==> some_of(old(self)@, at(anchor, leading(any()))),
            list matches Some(l) ==> l@ == old(self)@.filter(at(anchor, leading(any()))),
            final(self)@ == old(self)@.filter(except(at(anchor, leading(any())))),
    {
        assert(decides(whichever, any()));
        let taken: CommentList = self.take_matching_leading_at(anchor, whichever);
        proof {
            lemma_filter_some(old(self)@, at(anchor, leading(any())));
        }
        if taken.is_empty() {
            None
        } else {
            Some(taken)
        }
    }

    /// Takes the leading comments of a boundary that the predicate holds of.
    pub fn take_matching_leading_at<F: Fn(&Comment) -> bool>(
        &mut self,
        anchor: u32,
        predicate: F,
    ) -> (taken: CommentList)
        requires
            old(self).wf(),
            answers(predicate),
        ensures
            final(self).wf(),
            forall|p: spec_fn(Comment) -> bool| #[trigger]
                decides(predicate, p) ==> taken@ == old(self)@.filter(at(anchor, leading(p)))
                    && final(self)@ == old(self)@.filter(except(at(anchor, leading(p)))),
    {
        let ghost before = self.groups@;
        match self.index(anchor) {
            Ok(g) => {
                let taken: CommentList = take_matching(&mut self.groups[g].leading, predicate);
                proof {
                    let p0 = choose|p: spec_fn(Comment) -> bool| #[trigger] decides(predicate, p);
                    assert(filed(before[g as int]));
                    lemma_leading_thinned(before[g as int], self.groups@[g as int], p0);
                    lemma_taken_at(before, self.groups@, g as int, leading(p0));
                    assert forall|p: spec_fn(Comment) -> bool| #[trigger]
                        decides(predicate, p) implies taken@ == old(self)@.filter(
                        at(anchor, leading(p)),
                    ) && self@ == old(self)@.filter(except(at(anchor, leading(p)))) by {
                        lemma_group_at(before, g as int, p);
                        lemma_leading_thinned(before[g as int], self.groups@[g as int], p);
                        lemma_taken_at(before, self.groups@, g as int, leading(p));
                    }
                }
                taken
            },
            Err(_) => {
                assert forall|p: spec_fn(Comment) -> bool| #[trigger]
                    decides(predicate, p) implies old(self)@.filter(at(anchor, leading(p)))
                    == Seq::<Comment>::empty() && self@ == old(self)@.filter(
                    except(at(anchor, leading(p))),
                ) by {
                    lemma_no_group_at(before, anchor, leading(p));
                }
                CommentList::new()
            },
        }
    }

    /// Takes the trailing comments of a boundary, if it has any.
    pub fn take_trailing_at(&mut self, anchor: u32) -> (list: Option<CommentList>)
        requires
            old(self).wf(),
        ensures
            final(self).wf(),
            list is Some <==> some_of(old(self)@, at(anchor, trailing(any()))),
            list matches Some(l) ==> l@ == old(self)@.filter(at(anchor, trailing(any()))),
            final(self)@ == old(self)@.filter(except(at(anchor, trailing(any())))),
    {
        assert(decides(whichever, any()));
        let taken: CommentList = self.take_matching_trailing_at(anchor, whichever);
        proof {
            lemma_filter_some(old(self)@, at(anchor, trailing(any())));
        }
        if taken.is_empty() {
            None
        } else {
            Some(taken)
        }
    }

    /// Takes the trailing comments of a boundary that the predicate holds of.
    pub fn take_matching_trailing_at<F: Fn(&Comment) -> bool>(
        &mut self,
        anchor: u32,
        predicate: F,
    ) -> (taken: CommentList)
        requires
            old(self).wf(),
            answers(predicate),
        ensures
            final(self).wf(),
            forall|p: spec_fn(Comment) -> bool| #[trigger]
                decides(predicate, p) ==> taken@ == old(self)@.filter(at(anchor, trailing(p)))
                    && final(self)@ == old(self)@.filter(except(at(anchor, trailing(p)))),
    {
        let ghost before = self.groups@;
        match self.index(anchor) {
            Ok(g) => {
                let taken: CommentList = take_matching(&mut self.groups[g].trailing, predicate);
                proof {
                    let p0 = choose|p: spec_fn(Comment) -> bool| #[trigger] decides(predicate, p);
                    assert(filed(before[g as int]));
                    lemma_trailing_thinned(before[g as int], self.groups@[g as int], p0);
                    lemma_taken_at(before, self.groups@, g as int, trailing(p0));
                    assert forall|p: spec_fn(Comment) -> bool| #[trigger]
                        decides(predicate, p) implies taken@ == old(self)@.filter(
                        at(anchor, trailing(p)),
                    ) && self@ == old(self)@.filter(except(at(anchor, trailing(p)))) by {
                        lemma_group_at(before, g as int, p);
                        lemma_trailing_thinned(before[g as int], self.groups@[g as int], p);
                        lemma_taken_at(before, self.groups@, g as int, trailing(p));
                    }
                }
                taken
            },
            Err(_) => {
                assert forall|p: spec_fn(Comment) -> bool| #[trigger]
                    decides(predicate, p) implies old(self)@.filter(at(anchor, trailing(p)))
                    == Seq::<Comment>::empty() && self@ == old(self)@.filter(
                    except(at(anchor, trailing(p))),
                ) by {
                    lemma_no_group_at(before, anchor, trailing(p));
                }
                CommentList::new()
            },
        }
    }

    /// Takes the comments of a boundary that the predicate holds of, in the order of the
    /// source.
    pub fn take_matching_at<F: Fn(&Comment) -> bool + Copy>(
        &mut self,
        anchor: u32,
        predicate: F,
    ) -> (taken: CommentList)
        requires
            old(self).wf(),
            answers(predicate),
        ensures
            final(self).wf(),
            forall|p: spec_fn(Comment) -> bool| #[trigger]
                decides(predicate, p) ==> taken@ == by_start(old(self)@.filter(at(anchor, p)))
                    && final(self)@ == old(self)@.filter(except(at(anchor, p))),
    {
        let ghost before = self.groups@;
        match self.index(anchor) {
            Ok(g) => {
                let mut taken: CommentList = take_matching(&mut self.groups[g].leading, predicate);
                let behind: CommentList = take_matching(&mut self.groups[g].trailing, predicate);
                taken.append(&behind);
                proof {
                    assert(self.groups@ =~= before.update(g as int, self.groups@[g as int]));
                    let p0 = choose|p: spec_fn(Comment) -> bool| #[trigger] decides(predicate, p);
                    assert(filed(before[g as int]));
                    lemma_both_thinned(before[g as int], self.groups@[g as int], p0);
                    lemma_taken_at(before, self.groups@, g as int, p0);
                    assert forall|p: spec_fn(Comment) -> bool| #[trigger]
                        decides(predicate, p) implies taken@ == old(self)@.filter(at(anchor, p))
                        && self@ == old(self)@.filter(except(at(anchor, p))) by {
                        lemma_group_at(before, g as int, p);
                        lemma_filed_sides(before[g as int], p);
                        lemma_both_thinned(before[g as int], self.groups@[g as int], p);
                        lemma_taken_at(before, self.groups@, g as int, p);
                    }
                }
                taken.sorted_by_start()
            },
            Err(_) => {
                assert forall|p: spec_fn(Comment) -> bool| #[trigger]
                    decides(predicate, p) implies by_start(old(self)@.filter(at(anchor, p)))
                    == Seq::<Comment>::empty() && self@ == old(self)@.filter(
                    except(at(anchor, p)),
                ) by {
                    lemma_no_group_at(before, anchor, p);
                }
                CommentList::new()
            },
        }
    }

    /// The last boundary, not behind `anchor`, that has a leading comment of which the
    /// predicate holds.
    pub fn nearest_matching_leading_anchor<F: Fn(&Comment) -> bool + Copy>(
        &self,
        anchor: u32,
        predicate: F,
    ) -> (nearest: Option<u32>)
        requires
            self.wf(),
            answers(predicate),
        ensures
            forall|p: spec_fn(Comment) -> bool| #[trigger]
                decides(predicate, p) ==> is_nearest(self@, anchor, leading(p), nearest),
    {
        let mut end: usize = self.first_behind(anchor);
        while end > 0
            invariant
                end <= self.groups@.len(),
                self.wf(),
                answers(predicate),
                forall|g: int| 0 <= g < end ==> (#[trigger] self.groups@[g]).anchor <= anchor,
                forall|p: spec_fn(Comment) -> bool, g: int|
                    #![trigger decides(predicate, p), self.groups@[g]]
                    decides(predicate, p) && end <= g < self.groups@.len()
                        && self.groups@[g].anchor <= anchor ==> !some_of(
                        self.groups@[g].leading@,
                        p,
                    ),
            decreases end,
        {
            let group: &CommentGroup = &self.groups[end - 1];
            if any_matching(&group.leading, predicate) {
                assert forall|p: spec_fn(Comment) -> bool| #[trigger]
                    decides(predicate, p) implies is_nearest(
                    self@,
                    anchor,
                    leading(p),
                    Some(group.anchor),
                ) by {
                    lemma_nearest_found(self.groups@, end - 1, anchor, p);
                }
                return Some(group.anchor);
            }
            end = end - 1;
        }
        assert forall|p: spec_fn(Comment) -> bool| #[trigger] decides(predicate, p) implies
            is_nearest(self@, anchor, leading(p), None) by {
            lemma_nearest_missing(self.groups@, anchor, p);
        }
        None
    }

    /// Takes the comments that the predicate holds of from a range of groups, group by group.
    fn take_from_groups<F: Fn(&Comment) -> bool + Copy>(
        &mut self,
        first: usize,
        last: usize,
        predicate: F,
    ) -> (taken: CommentList)
        requires
            old(self).wf(),
            answers(predicate),
            first <= last <= old(self).groups@.len(),
        ensures
            forall|p: spec_fn(Comment) -> bool| #[trigger]
                decides(predicate, p) ==> taken@ == pending(
                    old(self).groups@.subrange(first as int, last as int),
                ).filter(p) && thinned(
                    old(self).groups@,
                    final(self).groups@,
                    first as int,
                    last as int,
                    p,
                ),
    {
        let ghost before = self.groups@;
        let mut taken: CommentList = CommentList::new();
        let mut g: usize = first;
        proof {
            reveal(Seq::filter);
            assert(before.subrange(first as int, first as int) =~= Seq::<CommentGroup>::empty());
        }
        while g < last
            invariant
                first <= g <= last <= before.len(),
                answers(predicate),
                groups_ok(before),
                before == old(self).groups@,
                self.groups@.len() == before.len(),
                forall|h: int| g <= h < before.len() ==> self.groups@[h] == before[h],
                forall|p: spec_fn(Comment) -> bool| #[trigger]
                    decides(predicate, p) ==> taken@ == pending(
                        before.subrange(first as int, g as int),
                    ).filter(p) && thinned(before, self.groups@, first as int, g as int, p),
            decreases last - g,
        {
            let ghost middle = self.groups@;
            let ghost taken_before = taken@;
            let ahead: CommentList = take_matching(&mut self.groups[g].leading, predicate);
            let behind: CommentList = take_matching(&mut self.groups[g].trailing, predicate);
            taken.append(&ahead);
            taken.append(&behind);
            proof {
                let now = self.groups@;
                assert(now =~= middle.update(g as int, now[g as int]));
                assert forall|p: spec_fn(Comment) -> bool| #[trigger]
                    decides(predicate, p) implies taken@ == pending(
                    before.subrange(first as int, g + 1),
                ).filter(p) && thinned(before, now, first as int, g + 1, p) by {
                    assert(filed(before[g as int]));
                    lemma_both_thinned(before[g as int], now[g as int], p);
                    lemma_filed_sides(before[g as int], p);
                    let done = before.subrange(first as int, g as int);
                    let more = before.subrange(first as int, g + 1);
                    assert(more.drop_last() =~= done);
                    Seq::filter_distributes_over_add(
                        pending(done),
                        contents(before[g as int]),
                        p,
                    );
                    assert(taken@ =~= pending(more).filter(p));
                    assert forall|h: int| 0 <= h < before.len() implies (
                    #[trigger] now[h]).anchor == before[h].anchor && filed(now[h]) && contents(
                        now[h],
                    ) == (if first <= h < g + 1 {
                        contents(before[h]).filter(except(p))
                    } else {
                        contents(before[h])
                    }) by {
                        if h != g {
                            assert(now[h] == middle[h]);
                            assert(middle[h].anchor == before[h].anchor);
                        }
                    }
                }
            }
            g = g + 1;
        }
        taken
    }

    /// Takes the comments that the predicate holds of from the boundaries `low` to `high`,
    /// whose groups lie from `first` up to `last`.
    fn take_in_bounds<F: Fn(&Comment) -> bool + Copy>(
        &mut self,
        first: usize,
        last: usize,
        Ghost(low): Ghost<int>,
        Ghost(high): Ghost<int>,
        predicate: F,
    ) -> (taken: CommentList)
        requires
            old(self).wf(),
            answers(predicate),
            first <= last <= old(self).groups@.len(),
            forall|g: int|
                0 <= g < old(self).groups@.len() ==> (first <= g < last <==> low <= (
                #[trigger] old(self).groups@[g]).anchor <= high),
        ensures
            final(self).wf(),
            forall|p: spec_fn(Comment) -> bool| #[trigger]
                decides(predicate, p) ==> taken@ == by_start(
                    old(self)@.filter(within(low, high, p)),
                ) && final(self)@ == old(self)@.filter(except(within(low, high, p))),
    {
        let ghost before = self.groups@;
        let taken: CommentList = self.take_from_groups(first, last, predicate);
        proof {
            let now = self.groups@;
            let p0 = choose|p: spec_fn(Comment) -> bool| #[trigger] decides(predicate, p);
            lemma_still_filed(before, now, first as int, last as int, p0);
            lemma_range_thinned(before, now, first as int, last as int, low, high, p0);
            lemma_filter_ordered(pending(before), except(within(low, high, p0)), store_le());
            assert forall|p: spec_fn(Comment) -> bool| #[trigger] decides(predicate, p) implies
                taken@ == old(self)@.filter(within(low, high, p)) && self@ == old(self)@.filter(
                except(within(low, high, p)),
            ) by {
                lemma_range_taken(before, first as int, last as int, low, high, p);
                lemma_range_thinned(before, now, first as int, last as int, low, high, p);
            }
        }
        taken.sorted_by_start()
    }

    /// Is there a comment in a range of groups?
    fn any_in_groups(&self, first: usize, last: usize) -> (found: bool)
        requires
            self.wf(),
            first <= last <= self.groups@.len(),
        ensures
            found == (pending(self.groups@.subrange(first as int, last as int)).len() > 0),
    {
        let mut g: usize = first;
        assert(self.groups@.subrange(first as int, first as int)
            =~= Seq::<CommentGroup>::empty());
        while g < last
            invariant
                first <= g <= last <= self.groups@.len(),
                pending(self.groups@.subrange(first as int, g as int)).len() == 0,
            decreases last - g,
        {
            let ghost more = self.groups@.subrange(first as int, g + 1);
            assert(more.drop_last() =~= self.groups@.subrange(first as int, g as int));
            assert(more.last() == self.groups@[g as int]);
            if !self.groups[g].leading.is_empty() || !self.groups[g].trailing.is_empty() {
                proof {
                    let rest = self.groups@.subrange(g + 1, last as int);
                    assert(self.groups@.subrange(first as int, last as int) =~= more + rest);
                    lemma_pending_add(more, rest);
                }
                return true;
            }
            g = g + 1;
        }
        false
    }

    /// Is there a comment at a boundary strictly between `start` and `end`?
    pub fn has_between(&self, start: u32, end: u32) -> (found: bool)
        requires
            self.wf(),
        ensures
            found == some_of(self@, within(start + 1, end - 1, any())),
    {
        if start >= end {
            return false;
        }
        let (first, last) = self.bounds(start + 1, end, false);
        proof {
            lemma_range_taken(
                self.groups@,
                first as int,
                last as int,
                start + 1,
                end - 1,
                any(),
            );
            lemma_filter_all(
                pending(self.groups@.subrange(first as int, last as int)),
                any(),
            );
            lemma_filter_some(self@, within(start + 1, end - 1, any()));
        }
        self.any_in_groups(first, last)
    }

    /// Takes the comments at the boundaries strictly between `start` and `end` that the
    /// predicate holds of, in the order of the source.
    pub fn take_between<F: Fn(&Comment) -> bool + Copy>(
        &mut self,
        start: u32,
        end: u32,
        predicate: F,
    ) -> (taken: CommentList)
        requires
            old(self).wf(),
            answers(predicate),
        ensures
            final(self).wf(),
            forall|p: spec_fn(Comment) -> bool| #[trigger]
                decides(predicate, p) ==> taken@ == by_start(
                    old(self)@.filter(within(start + 1, end - 1, p)),
                ) && final(self)@ == old(self)@.filter(except(within(start + 1, end - 1, p))),
    {
        if start >= end {
            assert forall|p: spec_fn(Comment) -> bool| #[trigger] decides(predicate, p) implies
                old(self)@.filter(within(start + 1, end - 1, p)) == Seq::<Comment>::empty()
                && self@ == old(self)@.filter(except(within(start + 1, end - 1, p))) by {
                lemma_filter_none(self@, within(start + 1, end - 1, p));
                lemma_filter_all(self@, except(within(start + 1, end - 1, p)));
            }
            return CommentList::new();
        }
        let (first, last) = self.bounds(start + 1, end, false);
        self.take_in_bounds(first, last, Ghost(start + 1), Ghost(end - 1), predicate)
    }

    /// Takes all comments at the boundaries from `start` to `end`, in the order of the source.
    pub fn take_remaining_in(&mut self, start: u32, end: u32) -> (taken: CommentList)
        requires
            old(self).wf(),
        ensures
            final(self).wf(),
            taken@ == by_start(old(self)@.filter(within(start as int, end as int, any()))),
            final(self)@ == old(self)@.filter(except(within(start as int, end as int, any()))),
    {
        if start > end {
            proof {
                lemma_filter_none(self@, within(start as int, end as int, any()));
                lemma_filter_all(self@, except(within(start as int, end as int, any())));
            }
            return CommentList::new();
        }
        assert(decides(whichever, any()));
        let (first, last) = self.bounds(start, end, true);
        self.take_in_bounds(first, last, Ghost(start as int), Ghost(end as int), whichever)
    }

    /// Is there a comment at a boundary from `start` to `end`?
    pub fn has_remaining_in(&self, start: u32, end: u32) -> (found: bool)
        requires
            self.wf(),
        ensures
            found == some_of(self@, within(start as int, end as int, any())),
    {
        if start > end {
            return false;
        }
        let (first, last) = self.bounds(start, end, true);
        proof {
            lemma_range_taken(
                self.groups@,
                first as int,
                last as int,
                start as int,
                end as int,
                any(),
            );
            lemma_filter_all(
                pending(self.groups@.subrange(first as int, last as int)),
                any(),
            );
            lemma_filter_some(self@, within(start as int, end as int, any()));
        }
        self.any_in_groups(first, last)
    }

    /// Takes all comments, in the order of the source.
    pub fn take_all_remaining(&mut self) -> (taken: CommentList)
        requires
            old(self).wf(),
        ensures
            final(self).wf(),
            taken@ == by_start(old(self)@),
            final(self)@ == Seq::<Comment>::empty(),
    {
        let ghost all = self@;
        assert(decides(whichever, any()));
        let last: usize = self.groups.len();
        let taken: CommentList = self.take_in_bounds(
            0,
            last,
            Ghost(0),
            Ghost(u32::MAX as int),
            whichever,
        );
        proof {
            lemma_filter_all(all, within(0, u32::MAX as int, any()));
            lemma_filter_none(all, except(within(0, u32::MAX as int, any())));
        }
        taken
    }

    /// Does the predicate hold of a comment at a boundary before `end`?
    pub fn has_matching_before<F: Fn(&Comment) -> bool + Copy>(
        &self,
        end: u32,
        predicate: F,
    ) -> (found: bool)
        requires
            self.wf(),
            answers(predicate),
        ensures
            forall|p: spec_fn(Comment) -> bool| #[trigger]
                decides(predicate, p) ==> found == some_of(self@, within(0, end - 1, p)),
    {
        let last: usize = self.first_from(end);
        let mut g: usize = 0;
        while g < last
            invariant
                g <= last <= self.groups@.len(),
                self.wf(),
                answers(predicate),
                forall|h: int| 0 <= h < last ==> (#[trigger] self.groups@[h]).anchor < end,
                forall|h: int|
                    last <= h < self.groups@.len() ==> end <= (#[trigger] self.groups@[h]).anchor,
                forall|p: spec_fn(Comment) -> bool, h: int|
                    #![trigger decides(predicate, p), self.groups@[h]]
                    decides(predicate, p) && 0 <= h < g ==> !some_of(contents(self.groups@[h]), p),
            decreases last - g,
        {
            let group: &CommentGroup = &self.groups[g];
            let found: bool = any_matching(&group.leading, predicate) || any_matching(
                &group.trailing,
                predicate,
            );
            assert forall|p: spec_fn(Comment) -> bool| #[trigger] decides(predicate, p) implies
                found == some_of(contents(self.groups@[g as int]), p) by {
                lemma_some_of_sides(self.groups@[g as int], p);
            }
            if found {
                assert forall|p: spec_fn(Comment) -> bool| #[trigger]
                    decides(predicate, p) implies some_of(self@, within(0, end - 1, p)) by {
                    lemma_found_before(self.groups@, g as int, end, p);
                }
                return true;
            }
            g = g + 1;
        }
        assert forall|p: spec_fn(Comment) -> bool| #[trigger] decides(predicate, p) implies
            !some_of(self@, within(0, end - 1, p)) by {
            lemma_none_before(self.groups@, last as int, end, p);
        }
        false
    }

    /// Takes the comments at the boundaries before `end` that the predicate holds of, in the
    /// order of the source.
    pub fn take_matching_before<F: Fn(&Comment) -> bool + Copy>(
        &mut self,
        end: u32,
        predicate: F,
    ) -> (taken: CommentList)
        requires
            old(self).wf(),
            answers(predicate),
        ensures
            final(self).wf(),
            forall|p: spec_fn(Comment) -> bool| #[trigger]
                decides(predicate, p) ==> taken@ == by_start(
                    old(self)@.filter(within(0, end - 1, p)),
                ) && final(self)@ == old(self)@.filter(except(within(0, end - 1, p))),
    {
        let last: usize = self.first_from(end);
        self.take_in_bounds(0, last, Ghost(0), Ghost(end - 1), predicate)
    }
}

} // verus!
