//! The comments that wait to be printed, as a sequence: what taking some of them leaves.
use vstd::prelude::*;

use crate::comment::Comment;
use crate::list::CommentList;
use crate::order::{ordered_by, total_order};

verus! {

/// The comments of one source boundary.
pub struct CommentGroup {
    /// The boundary.
    pub anchor: u32,
    /// The comments before it.
    pub leading: CommentList,
    /// The comments after it.
    pub trailing: CommentList,
}

/// The comments of a group, the leading ones first.
pub open spec fn contents(group: CommentGroup) -> Seq<Comment> {
    group.leading@ + group.trailing@
}

/// The comments of all groups, one group after the other.
pub open spec fn pending(groups: Seq<CommentGroup>) -> Seq<Comment>
    decreases groups.len(),
{
    if groups.len() == 0 {
        seq![]
    } else {
        pending(groups.drop_last()) + contents(groups.last())
    }
}

/// The order in which the store keeps comments: by boundary, then leading before trailing,
/// then by where they start.
pub open spec fn store_le() -> spec_fn(Comment, Comment) -> bool {
    |a: Comment, b: Comment|
        a.attached_to < b.attached_to || (a.attached_to == b.attached_to && ((a.is_leading()
            && !b.is_leading()) || (a.is_leading() == b.is_leading() && a.span.start
            <= b.span.start)))
}

/// Every comment is filed under its own boundary, on its own side.
pub open spec fn filed(group: CommentGroup) -> bool {
    &&& forall|i: int|
        0 <= i < group.leading@.len() ==> (#[trigger] group.leading@[i]).attached_to
            == group.anchor && group.leading@[i].is_leading()
    &&& forall|i: int|
        0 <= i < group.trailing@.len() ==> (#[trigger] group.trailing@[i]).attached_to
            == group.anchor && !group.trailing@[i].is_leading()
}

/// All groups are filed rightly, under ascending boundaries.
pub open spec fn groups_ok(groups: Seq<CommentGroup>) -> bool {
    &&& forall|i: int| 0 <= i < groups.len() ==> filed(#[trigger] groups[i])
    &&& forall|i: int, j: int|
        0 <= i < j < groups.len() ==> (#[trigger] groups[i]).anchor < (#[trigger] groups[j]).anchor
}

/// The comments that steer tree shaking.
pub open spec fn semantic() -> spec_fn(Comment) -> bool {
    |c: Comment| c.is_semantic()
}

/// Thinning out the leading side of a group.
pub proof fn lemma_leading_thinned(
    before: CommentGroup,
    after: CommentGroup,
    p: spec_fn(Comment) -> bool,
)
    requires
        filed(before),
        after.anchor == before.anchor,
        after.leading@ == before.leading@.filter(except(p)),
        after.trailing@ == before.trailing@,
    ensures
        filed(after),
        contents(after) == contents(before).filter(except(leading(p))),
{
    lemma_filter_elements(before.leading@, except(p));
    lemma_leading_filed(before, except(p));
    lemma_filter_agree(before.leading@, except(leading(p)), except(p));
    lemma_filter_all(before.trailing@, except(leading(p)));
    Seq::filter_distributes_over_add(before.leading@, before.trailing@, except(leading(p)));
}

/// Thinning out the trailing side of a group.
pub proof fn lemma_trailing_thinned(
    before: CommentGroup,
    after: CommentGroup,
    p: spec_fn(Comment) -> bool,
)
    requires
        filed(before),
        after.anchor == before.anchor,
        after.leading@ == before.leading@,
        after.trailing@ == before.trailing@.filter(except(p)),
    ensures
        filed(after),
        contents(after) == contents(before).filter(except(trailing(p))),
{
    lemma_trailing_filed(before, except(p));
    lemma_filter_agree(before.trailing@, except(trailing(p)), except(p));
    lemma_filter_all(before.leading@, except(trailing(p)));
    Seq::filter_distributes_over_add(before.leading@, before.trailing@, except(trailing(p)));
}

/// Thinning out both sides of a group.
pub proof fn lemma_both_thinned(
    before: CommentGroup,
    after: CommentGroup,
    p: spec_fn(Comment) -> bool,
)
    requires
        filed(before),
        after.anchor == before.anchor,
        after.leading@ == before.leading@.filter(except(p)),
        after.trailing@ == before.trailing@.filter(except(p)),
    ensures
        filed(after),
        contents(after) == contents(before).filter(except(p)),
{
    lemma_leading_filed(before, except(p));
    lemma_trailing_filed(before, except(p));
    Seq::filter_distributes_over_add(before.leading@, before.trailing@, except(p));
}

/// Filtering the leading side leaves it filed.
proof fn lemma_leading_filed(group: CommentGroup, p: spec_fn(Comment) -> bool)
    requires
        filed(group),
    ensures
        forall|i: int|
            0 <= i < group.leading@.filter(p).len() ==> (
            #[trigger] group.leading@.filter(p)[i]).attached_to == group.anchor
                && group.leading@.filter(p)[i].is_leading(),
{
    let kept = group.leading@.filter(p);
    lemma_filter_elements(group.leading@, p);
    assert forall|i: int| 0 <= i < kept.len() implies (#[trigger] kept[i]).attached_to
        == group.anchor && kept[i].is_leading() by {
        assert(group.leading@.contains(kept[i]));
    }
}

/// Filtering the trailing side leaves it filed.
proof fn lemma_trailing_filed(group: CommentGroup, p: spec_fn(Comment) -> bool)
    requires
        filed(group),
    ensures
        forall|i: int|
            0 <= i < group.trailing@.filter(p).len() ==> (
            #[trigger] group.trailing@.filter(p)[i]).attached_to == group.anchor
                && !group.trailing@.filter(p)[i].is_leading(),
{
    let kept = group.trailing@.filter(p);
    lemma_filter_elements(group.trailing@, p);
    assert forall|i: int| 0 <= i < kept.len() implies (#[trigger] kept[i]).attached_to
        == group.anchor && !kept[i].is_leading() by {
        assert(group.trailing@.contains(kept[i]));
    }
}

/// Any comment.
pub open spec fn any() -> spec_fn(Comment) -> bool {
    |c: Comment| true
}

/// The comments that `p` does not hold of.
pub open spec fn except(p: spec_fn(Comment) -> bool) -> spec_fn(Comment) -> bool {
    |c: Comment| !p(c)
}

/// The comments of one boundary that `p` holds of.
pub open spec fn at(anchor: u32, p: spec_fn(Comment) -> bool) -> spec_fn(Comment) -> bool {
    |c: Comment| c.attached_to == anchor && p(c)
}

/// The leading comments that `p` holds of.
pub open spec fn leading(p: spec_fn(Comment) -> bool) -> spec_fn(Comment) -> bool {
    |c: Comment| c.is_leading() && p(c)
}

/// The trailing comments that `p` holds of.
pub open spec fn trailing(p: spec_fn(Comment) -> bool) -> spec_fn(Comment) -> bool {
    |c: Comment| !c.is_leading() && p(c)
}

/// The comments of the boundaries from `first` to `last` that `p` holds of.
pub open spec fn within(
    first: int,
    last: int,
    p: spec_fn(Comment) -> bool,
) -> spec_fn(Comment) -> bool {
    |c: Comment| first <= c.attached_to <= last && p(c)
}

/// Whenever `f` returns, it returns what `p` says.
pub open spec fn decides<F: Fn(&Comment) -> bool>(f: F, p: spec_fn(Comment) -> bool) -> bool {
    forall|c: Comment, b: bool| #[trigger] call_ensures(f, (&c,), b) ==> b == p(c)
}

/// `f` can be asked about any comment, and says the same of a comment each time.
pub open spec fn answers<F: Fn(&Comment) -> bool>(f: F) -> bool {
    &&& forall|c: Comment| #[trigger] call_requires(f, (&c,))
    &&& exists|p: spec_fn(Comment) -> bool| #[trigger] decides(f, p)
}

/// Does `p` hold of one of the comments?
pub open spec fn some_of(comments: Seq<Comment>, p: spec_fn(Comment) -> bool) -> bool {
    exists|i: int| 0 <= i < comments.len() && p(#[trigger] comments[i])
}

/// Filtering keeps nothing where nothing qualifies.
pub proof fn lemma_filter_none(s: Seq<Comment>, p: spec_fn(Comment) -> bool)
    requires
        forall|i: int| 0 <= i < s.len() ==> !p(#[trigger] s[i]),
    ensures
        s.filter(p) == Seq::<Comment>::empty(),
    decreases s.len(),
{
    reveal(Seq::filter);
    if s.len() > 0 {
        assert forall|i: int| 0 <= i < s.drop_last().len() implies !p(
            #[trigger] s.drop_last()[i],
        ) by {
            assert(!p(s[i]));
        }
        lemma_filter_none(s.drop_last(), p);
        assert(!p(s[s.len() - 1]));
    } else {
        assert(s =~= Seq::<Comment>::empty());
    }
}

/// Two filters that agree on every element keep the same.
pub proof fn lemma_filter_agree(
    s: Seq<Comment>,
    p: spec_fn(Comment) -> bool,
    q: spec_fn(Comment) -> bool,
)
    requires
        forall|i: int| 0 <= i < s.len() ==> p(#[trigger] s[i]) == q(s[i]),
    ensures
        s.filter(p) == s.filter(q),
    decreases s.len(),
{
    reveal(Seq::filter);
    if s.len() > 0 {
        assert forall|i: int| 0 <= i < s.drop_last().len() implies p(#[trigger] s.drop_last()[i])
            == q(s.drop_last()[i]) by {
            assert(p(s[i]) == q(s[i]));
        }
        lemma_filter_agree(s.drop_last(), p, q);
        assert(p(s[s.len() - 1]) == q(s[s.len() - 1]));
    }
}

/// Filtering keeps everything where everything qualifies.
pub proof fn lemma_filter_all(s: Seq<Comment>, p: spec_fn(Comment) -> bool)
    requires
        forall|i: int| 0 <= i < s.len() ==> p(#[trigger] s[i]),
    ensures
        s.filter(p) == s,
    decreases s.len(),
{
    reveal(Seq::filter);
    if s.len() > 0 {
        assert forall|i: int| 0 <= i < s.drop_last().len() implies p(#[trigger] s.drop_last()[i]) by {
            assert(p(s[i]));
        }
        lemma_filter_all(s.drop_last(), p);
        assert(p(s[s.len() - 1]));
        assert(s.drop_last().push(s.last()) =~= s);
    }
}

/// Something is kept exactly where something qualifies.
pub proof fn lemma_filter_some(s: Seq<Comment>, p: spec_fn(Comment) -> bool)
    ensures
        some_of(s, p) <==> s.filter(p).len() > 0,
    decreases s.len(),
{
    if some_of(s, p) {
        let i = choose|i: int| 0 <= i < s.len() && p(#[trigger] s[i]);
        s.lemma_filter_contains(p, i);
        assert(s.filter(p).contains(s[i]));
    } else {
        lemma_filter_none(s, p);
    }
}

/// What is kept qualifies, and was there.
pub proof fn lemma_filter_elements(s: Seq<Comment>, p: spec_fn(Comment) -> bool)
    ensures
        forall|i: int|
            0 <= i < s.filter(p).len() ==> p(#[trigger] s.filter(p)[i]) && s.contains(
                s.filter(p)[i],
            ),
{
    assert forall|i: int| 0 <= i < s.filter(p).len() implies p(#[trigger] s.filter(p)[i])
        && s.contains(s.filter(p)[i]) by {
        s.lemma_filter_pred(p, i);
        assert(s.filter(p).contains(s.filter(p)[i]));
        s.lemma_filter_contains_rev(p, s.filter(p)[i]);
    }
}

/// Filtering keeps the order.
pub proof fn lemma_filter_ordered(
    s: Seq<Comment>,
    p: spec_fn(Comment) -> bool,
    le: spec_fn(Comment, Comment) -> bool,
)
    requires
        ordered_by(s, le),
    ensures
        ordered_by(s.filter(p), le),
    decreases s.len(),
{
    reveal(Seq::filter);
    if s.len() > 0 {
        let rest = s.drop_last();
        assert forall|i: int, j: int| 0 <= i < j < rest.len() implies le(
            #[trigger] rest[i],
            #[trigger] rest[j],
        ) by {
            assert(le(s[i], s[j]));
        }
        lemma_filter_ordered(rest, p, le);
        if p(s.last()) {
            let kept = rest.filter(p);
            let all = kept.push(s.last());
            lemma_filter_elements(rest, p);
            assert forall|i: int, j: int| 0 <= i < j < all.len() implies le(
                #[trigger] all[i],
                #[trigger] all[j],
            ) by {
                if j < kept.len() {
                    assert(le(kept[i], kept[j]));
                } else {
                    assert(rest.contains(kept[i]));
                    let k = choose|k: int| 0 <= k < rest.len() && rest[k] == kept[i];
                    assert(le(s[k], s[s.len() - 1]));
                }
            }
        }
    }
}

/// Groups put behind groups put comments behind comments.
pub proof fn lemma_pending_add(a: Seq<CommentGroup>, b: Seq<CommentGroup>)
    ensures
        pending(a + b) == pending(a) + pending(b),
    decreases b.len(),
{
    if b.len() == 0 {
        assert(a + b =~= a);
        assert(pending(a) + pending(b) =~= pending(a));
    } else {
        assert((a + b).drop_last() =~= a + b.drop_last());
        lemma_pending_add(a, b.drop_last());
        assert(pending(a + b) =~= pending(a) + pending(b));
    }
}

/// A pending comment lies in one of the groups.
pub proof fn lemma_pending_element(groups: Seq<CommentGroup>, i: int)
    requires
        0 <= i < pending(groups).len(),
    ensures
        exists|g: int|
            0 <= g < groups.len() && contents(#[trigger] groups[g]).contains(pending(groups)[i]),
    decreases groups.len(),
{
    let rest = groups.drop_last();
    if i < pending(rest).len() {
        lemma_pending_element(rest, i);
        let g = choose|g: int|
            0 <= g < rest.len() && contents(#[trigger] rest[g]).contains(pending(rest)[i]);
        assert(groups[g] == rest[g]);
    } else {
        let last = contents(groups.last());
        assert(last[i - pending(rest).len()] == pending(groups)[i]);
        assert(contents(groups[groups.len() - 1]).contains(pending(groups)[i]));
    }
}

/// What a group holds is pending.
pub proof fn lemma_contents_pending(groups: Seq<CommentGroup>, g: int, c: Comment)
    requires
        0 <= g < groups.len(),
        contents(groups[g]).contains(c),
    ensures
        pending(groups).contains(c),
    decreases groups.len(),
{
    let rest = groups.drop_last();
    if g < rest.len() {
        assert(rest[g] == groups[g]);
        lemma_contents_pending(rest, g, c);
        let i = choose|i: int| 0 <= i < pending(rest).len() && pending(rest)[i] == c;
        assert(pending(groups)[i] == c);
    } else {
        let i = choose|i: int| 0 <= i < contents(groups[g]).len() && contents(groups[g])[i] == c;
        assert(pending(groups)[pending(rest).len() + i] == c);
    }
}

/// Thinning out every group thins out what is pending.
pub proof fn lemma_pending_thinned(
    before: Seq<CommentGroup>,
    after: Seq<CommentGroup>,
    p: spec_fn(Comment) -> bool,
)
    requires
        before.len() == after.len(),
        forall|g: int|
            0 <= g < before.len() ==> contents(#[trigger] after[g]) == contents(before[g]).filter(p),
    ensures
        pending(after) == pending(before).filter(p),
    decreases before.len(),
{
    reveal(Seq::filter);
    if before.len() > 0 {
        let a = after.drop_last();
        let b = before.drop_last();
        assert forall|g: int| 0 <= g < b.len() implies contents(#[trigger] a[g]) == contents(
            b[g],
        ).filter(p) by {
            assert(after[g] == a[g]);
        }
        lemma_pending_thinned(b, a, p);
        assert(contents(after[after.len() - 1]) == contents(before.last()).filter(p));
        Seq::filter_distributes_over_add(pending(b), contents(before.last()), p);
    }
}

/// Where only the groups from `first` up to `last` qualify, only they are searched.
pub proof fn lemma_pending_range(
    groups: Seq<CommentGroup>,
    first: int,
    last: int,
    p: spec_fn(Comment) -> bool,
)
    requires
        0 <= first <= last <= groups.len(),
        forall|g: int, i: int|
            0 <= g < groups.len() && !(first <= g < last) && 0 <= i < contents(groups[g]).len()
                ==> !p(#[trigger] contents(#[trigger] groups[g])[i]),
    ensures
        pending(groups).filter(p) == pending(groups.subrange(first, last)).filter(p),
{
    let a = groups.subrange(0, first);
    let b = groups.subrange(first, last);
    let c = groups.subrange(last, groups.len() as int);
    assert(groups =~= a + b + c);
    lemma_pending_add(a + b, c);
    lemma_pending_add(a, b);
    lemma_unqualified(a, p);
    lemma_unqualified(c, p);
    Seq::filter_distributes_over_add(pending(a) + pending(b), pending(c), p);
    Seq::filter_distributes_over_add(pending(a), pending(b), p);
    assert(pending(groups).filter(p) =~= pending(b).filter(p));
}

/// Groups without a qualifying comment contribute nothing.
proof fn lemma_unqualified(groups: Seq<CommentGroup>, p: spec_fn(Comment) -> bool)
    requires
        forall|g: int, i: int|
            0 <= g < groups.len() && 0 <= i < contents(groups[g]).len() ==> !p(
                #[trigger] contents(#[trigger] groups[g])[i],
            ),
    ensures
        pending(groups).filter(p) == Seq::<Comment>::empty(),
{
    let all = pending(groups);
    assert forall|i: int| 0 <= i < all.len() implies !p(#[trigger] all[i]) by {
        lemma_pending_element(groups, i);
        let g = choose|g: int|
            0 <= g < groups.len() && contents(#[trigger] groups[g]).contains(all[i]);
        let k = choose|k: int| 0 <= k < contents(groups[g]).len() && contents(groups[g])[k] == all[i];
        assert(!p(contents(groups[g])[k]));
    }
    lemma_filter_none(all, p);
}

/// The comments of a filed group, split by side.
pub proof fn lemma_filed_sides(group: CommentGroup, p: spec_fn(Comment) -> bool)
    requires
        filed(group),
    ensures
        contents(group).filter(p) == group.leading@.filter(p) + group.trailing@.filter(p),
        group.leading@.filter(leading(p)) == group.leading@.filter(p),
        group.trailing@.filter(trailing(p)) == group.trailing@.filter(p),
        group.trailing@.filter(leading(p)) == Seq::<Comment>::empty(),
        group.leading@.filter(trailing(p)) == Seq::<Comment>::empty(),
        forall|i: int|
            0 <= i < contents(group).len() ==> (#[trigger] contents(group)[i]).attached_to
                == group.anchor,
{
    Seq::filter_distributes_over_add(group.leading@, group.trailing@, p);
    lemma_filter_agree(group.leading@, leading(p), p);
    lemma_filter_agree(group.trailing@, trailing(p), p);
    lemma_filter_none(group.trailing@, leading(p));
    lemma_filter_none(group.leading@, trailing(p));
}

/// The one group of a boundary holds all of the boundary's comments.
pub proof fn lemma_group_at(groups: Seq<CommentGroup>, g: int, p: spec_fn(Comment) -> bool)
    requires
        groups_ok(groups),
        0 <= g < groups.len(),
    ensures
        pending(groups).filter(at(groups[g].anchor, p)) == contents(groups[g]).filter(p),
        pending(groups).filter(at(groups[g].anchor, leading(p))) == groups[g].leading@.filter(p),
        pending(groups).filter(at(groups[g].anchor, trailing(p))) == groups[g].trailing@.filter(p),
{
    let anchor = groups[g].anchor;
    lemma_one_group(groups, g, p);
    lemma_one_group(groups, g, leading(p));
    lemma_one_group(groups, g, trailing(p));
    lemma_filed_sides(groups[g], p);
    lemma_filed_sides(groups[g], leading(p));
    lemma_filed_sides(groups[g], trailing(p));
    assert(contents(groups[g]).filter(leading(p)) =~= groups[g].leading@.filter(p));
    assert(contents(groups[g]).filter(trailing(p)) =~= groups[g].trailing@.filter(p));
}

/// Only one group is searched for the comments of a boundary.
proof fn lemma_one_group(groups: Seq<CommentGroup>, g: int, p: spec_fn(Comment) -> bool)
    requires
        groups_ok(groups),
        0 <= g < groups.len(),
    ensures
        pending(groups).filter(at(groups[g].anchor, p)) == contents(groups[g]).filter(p),
{
    let anchor = groups[g].anchor;
    let q = at(anchor, p);
    assert forall|h: int, i: int|
        0 <= h < groups.len() && !(g <= h < g + 1) && 0 <= i < contents(groups[h]).len() implies !q(
        #[trigger] contents(#[trigger] groups[h])[i],
    ) by {
        lemma_filed_sides(groups[h], p);
    }
    lemma_pending_range(groups, g, g + 1, q);
    let one = groups.subrange(g, g + 1);
    assert(one.drop_last() =~= Seq::<CommentGroup>::empty());
    assert(pending(one.drop_last()) =~= Seq::<Comment>::empty());
    assert(pending(one) =~= contents(groups[g]));
    lemma_filed_sides(groups[g], p);
    lemma_filter_agree(contents(groups[g]), q, p);
}

/// A boundary without a group has no comment.
pub proof fn lemma_no_group_at(
    groups: Seq<CommentGroup>,
    anchor: u32,
    p: spec_fn(Comment) -> bool,
)
    requires
        groups_ok(groups),
        forall|g: int| 0 <= g < groups.len() ==> (#[trigger] groups[g]).anchor != anchor,
    ensures
        pending(groups).filter(at(anchor, p)) == Seq::<Comment>::empty(),
        pending(groups).filter(except(at(anchor, p))) == pending(groups),
{
    let all = pending(groups);
    assert forall|i: int| 0 <= i < all.len() implies (#[trigger] all[i]).attached_to != anchor by {
        lemma_pending_element(groups, i);
        let g = choose|g: int|
            0 <= g < groups.len() && contents(#[trigger] groups[g]).contains(all[i]);
        lemma_filed_sides(groups[g], p);
    }
    lemma_filter_none(all, at(anchor, p));
    lemma_filter_all(all, except(at(anchor, p)));
}

/// Thinning out the group of a boundary takes away that boundary's comments and no others.
pub proof fn lemma_group_thinned(
    before: Seq<CommentGroup>,
    after: Seq<CommentGroup>,
    g: int,
    p: spec_fn(Comment) -> bool,
)
    requires
        groups_ok(before),
        0 <= g < before.len(),
        after == before.update(g, after[g]),
        after[g].anchor == before[g].anchor,
        contents(after[g]) == contents(before[g]).filter(except(p)),
    ensures
        pending(after) == pending(before).filter(except(at(before[g].anchor, p))),
{
    let q = except(at(before[g].anchor, p));
    assert forall|h: int| 0 <= h < before.len() implies contents(#[trigger] after[h]) == contents(
        before[h],
    ).filter(q) by {
        assert(filed(before[h]));
        lemma_filed_sides(before[h], p);
        if h == g {
            lemma_filter_agree(contents(before[g]), q, except(p));
        } else {
            lemma_filter_all(contents(before[h]), q);
        }
    }
    lemma_pending_thinned(before, after, q);
}

/// Comments that do not satisfy `p` have been left in the groups from `first` up to `last`,
/// and all comments in the other groups.
pub open spec fn thinned(
    before: Seq<CommentGroup>,
    after: Seq<CommentGroup>,
    first: int,
    last: int,
    p: spec_fn(Comment) -> bool,
) -> bool {
    &&& before.len() == after.len()
    &&& forall|g: int|
        0 <= g < before.len() ==> (#[trigger] after[g]).anchor == before[g].anchor && filed(
            after[g],
        ) && contents(after[g]) == (if first <= g < last {
            contents(before[g]).filter(except(p))
        } else {
            contents(before[g])
        })
}

/// The comments that qualify in the groups of a range of boundaries are those that qualify
/// among all pending ones.
pub proof fn lemma_range_taken(
    before: Seq<CommentGroup>,
    first: int,
    last: int,
    low: int,
    high: int,
    p: spec_fn(Comment) -> bool,
)
    requires
        groups_ok(before),
        0 <= first <= last <= before.len(),
        forall|g: int|
            0 <= g < before.len() ==> (first <= g < last <==> low <= (
            #[trigger] before[g]).anchor <= high),
    ensures
        pending(before.subrange(first, last)).filter(p) == pending(before).filter(
            within(low, high, p),
        ),
{
    let q = within(low, high, p);
    assert forall|g: int, i: int|
        0 <= g < before.len() && !(first <= g < last) && 0 <= i < contents(before[g]).len() implies
        !q(#[trigger] contents(#[trigger] before[g])[i]) by {
        lemma_filed_sides(before[g], p);
    }
    lemma_pending_range(before, first, last, q);
    let part = before.subrange(first, last);
    let all = pending(part);
    assert forall|i: int| 0 <= i < all.len() implies q(#[trigger] all[i]) == p(all[i]) by {
        lemma_pending_element(part, i);
        let g = choose|g: int| 0 <= g < part.len() && contents(#[trigger] part[g]).contains(all[i]);
        assert(part[g] == before[first + g]);
        lemma_filed_sides(before[first + g], p);
    }
    lemma_filter_agree(all, q, p);
}

/// Thinning out the groups of a range of boundaries takes away the comments that qualify
/// there, and no others.
pub proof fn lemma_range_thinned(
    before: Seq<CommentGroup>,
    after: Seq<CommentGroup>,
    first: int,
    last: int,
    low: int,
    high: int,
    p: spec_fn(Comment) -> bool,
)
    requires
        groups_ok(before),
        0 <= first <= last <= before.len(),
        forall|g: int|
            0 <= g < before.len() ==> (first <= g < last <==> low <= (
            #[trigger] before[g]).anchor <= high),
        thinned(before, after, first, last, p),
    ensures
        pending(after) == pending(before).filter(except(within(low, high, p))),
{
    let q = except(within(low, high, p));
    assert forall|g: int| 0 <= g < before.len() implies contents(#[trigger] after[g]) == contents(
        before[g],
    ).filter(q) by {
        assert(filed(before[g]));
        lemma_filed_sides(before[g], p);
        if first <= g < last {
            lemma_filter_agree(contents(before[g]), q, except(p));
        } else {
            lemma_filter_all(contents(before[g]), q);
        }
    }
    lemma_pending_thinned(before, after, q);
}

/// The store's order compares any two comments, and chains.
pub proof fn lemma_store_le_total()
    ensures
        total_order(store_le()),
{
}

/// Taking comments from the group of one boundary takes them from the pending ones and keeps
/// the rest filed and in order.
pub proof fn lemma_taken_at(
    before: Seq<CommentGroup>,
    after: Seq<CommentGroup>,
    g: int,
    q: spec_fn(Comment) -> bool,
)
    requires
        groups_ok(before),
        ordered_by(pending(before), store_le()),
        0 <= g < before.len(),
        after == before.update(g, after[g]),
        after[g].anchor == before[g].anchor,
        filed(after[g]),
        contents(after[g]) == contents(before[g]).filter(except(q)),
    ensures
        groups_ok(after),
        pending(after) == pending(before).filter(except(at(before[g].anchor, q))),
        ordered_by(pending(after), store_le()),
{
    assert forall|h: int| 0 <= h < after.len() implies filed(#[trigger] after[h]) by {
        if h != g {
            assert(filed(before[h]));
        }
    }
    assert forall|h: int, k: int| 0 <= h < k < after.len() implies (#[trigger] after[h]).anchor < (
    #[trigger] after[k]).anchor by {
        assert(before[h].anchor < before[k].anchor);
    }
    lemma_group_thinned(before, after, g, q);
    lemma_filter_ordered(pending(before), except(at(before[g].anchor, q)), store_le());
}

/// `nearest` is the last boundary, not behind `anchor`, that owns a comment of which `p` holds.
pub open spec fn is_nearest(
    comments: Seq<Comment>,
    anchor: u32,
    p: spec_fn(Comment) -> bool,
    nearest: Option<u32>,
) -> bool {
    match nearest {
        Some(a) => {
            &&& a <= anchor
            &&& some_of(comments, at(a, p))
            &&& forall|i: int|
                0 <= i < comments.len() && p(#[trigger] comments[i]) && comments[i].attached_to
                    <= anchor ==> comments[i].attached_to <= a
        },
        None => forall|i: int|
            0 <= i < comments.len() && p(#[trigger] comments[i]) ==> anchor
                < comments[i].attached_to,
    }
}

/// A leading comment that qualifies lies on the leading side of its boundary's group.
proof fn lemma_leading_in_group(groups: Seq<CommentGroup>, i: int, p: spec_fn(Comment) -> bool)
    requires
        groups_ok(groups),
        0 <= i < pending(groups).len(),
        leading(p)(pending(groups)[i]),
    ensures
        exists|g: int|
            0 <= g < groups.len() && (#[trigger] groups[g]).anchor == pending(
                groups,
            )[i].attached_to && some_of(groups[g].leading@, p),
{
    let c = pending(groups)[i];
    lemma_pending_element(groups, i);
    let g = choose|g: int| 0 <= g < groups.len() && contents(#[trigger] groups[g]).contains(c);
    let group = groups[g];
    assert(filed(group));
    let k = choose|k: int| 0 <= k < contents(group).len() && contents(group)[k] == c;
    if k < group.leading@.len() {
        assert(group.leading@[k] == c);
        assert(p(group.leading@[k]));
    } else {
        assert(group.trailing@[k - group.leading@.len()] == c);
    }
}

/// A group with a qualifying leading comment, behind which no other qualifies, is the nearest.
pub proof fn lemma_nearest_found(
    groups: Seq<CommentGroup>,
    g: int,
    anchor: u32,
    p: spec_fn(Comment) -> bool,
)
    requires
        groups_ok(groups),
        0 <= g < groups.len(),
        groups[g].anchor <= anchor,
        some_of(groups[g].leading@, p),
        forall|h: int|
            g < h < groups.len() && (#[trigger] groups[h]).anchor <= anchor ==> !some_of(
                groups[h].leading@,
                p,
            ),
    ensures
        is_nearest(pending(groups), anchor, leading(p), Some(groups[g].anchor)),
{
    let all = pending(groups);
    lemma_group_at(groups, g, p);
    lemma_filter_some(groups[g].leading@, p);
    lemma_filter_some(all, at(groups[g].anchor, leading(p)));
    assert forall|i: int|
        0 <= i < all.len() && leading(p)(#[trigger] all[i]) && all[i].attached_to
            <= anchor implies all[i].attached_to <= groups[g].anchor by {
        lemma_leading_in_group(groups, i, p);
        let h = choose|h: int|
            0 <= h < groups.len() && (#[trigger] groups[h]).anchor == all[i].attached_to && some_of(
                groups[h].leading@,
                p,
            );
        if h < g {
            assert(groups[h].anchor < groups[g].anchor);
        }
    }
}

/// Where no group up to a boundary has a qualifying leading comment, none is near.
pub proof fn lemma_nearest_missing(
    groups: Seq<CommentGroup>,
    anchor: u32,
    p: spec_fn(Comment) -> bool,
)
    requires
        groups_ok(groups),
        forall|h: int|
            0 <= h < groups.len() && (#[trigger] groups[h]).anchor <= anchor ==> !some_of(
                groups[h].leading@,
                p,
            ),
    ensures
        is_nearest(pending(groups), anchor, leading(p), None),
{
    let all = pending(groups);
    assert forall|i: int| 0 <= i < all.len() && leading(p)(#[trigger] all[i]) implies anchor
        < all[i].attached_to by {
        lemma_leading_in_group(groups, i, p);
    }
}

/// Thinned groups are filed as before.
pub proof fn lemma_still_filed(
    before: Seq<CommentGroup>,
    after: Seq<CommentGroup>,
    first: int,
    last: int,
    p: spec_fn(Comment) -> bool,
)
    requires
        groups_ok(before),
        thinned(before, after, first, last, p),
    ensures
        groups_ok(after),
{
    assert forall|g: int| 0 <= g < after.len() implies filed(#[trigger] after[g]) by {
        assert(after[g].anchor == before[g].anchor);
    }
    assert forall|g: int, h: int| 0 <= g < h < after.len() implies (#[trigger] after[g]).anchor < (
    #[trigger] after[h]).anchor by {
        assert(before[g].anchor < before[h].anchor);
    }
}

/// A group has a qualifying comment where one of its sides has.
pub proof fn lemma_some_of_sides(group: CommentGroup, p: spec_fn(Comment) -> bool)
    ensures
        some_of(contents(group), p) <==> some_of(group.leading@, p) || some_of(group.trailing@, p),
{
    let all = contents(group);
    if some_of(all, p) {
        let i = choose|i: int| 0 <= i < all.len() && p(#[trigger] all[i]);
        if i < group.leading@.len() {
            assert(p(group.leading@[i]));
        } else {
            assert(p(group.trailing@[i - group.leading@.len()]));
        }
    }
    if some_of(group.leading@, p) {
        let i = choose|i: int| 0 <= i < group.leading@.len() && p(#[trigger] group.leading@[i]);
        assert(p(all[i]));
    }
    if some_of(group.trailing@, p) {
        let i = choose|i: int| 0 <= i < group.trailing@.len() && p(#[trigger] group.trailing@[i]);
        assert(p(all[group.leading@.len() + i]));
    }
}

/// A qualifying comment in a group before a boundary is one among all pending.
pub proof fn lemma_found_before(
    groups: Seq<CommentGroup>,
    g: int,
    end: u32,
    p: spec_fn(Comment) -> bool,
)
    requires
        groups_ok(groups),
        0 <= g < groups.len(),
        groups[g].anchor < end,
        some_of(contents(groups[g]), p),
    ensures
        some_of(pending(groups), within(0, end - 1, p)),
{
    let own = contents(groups[g]);
    let i = choose|i: int| 0 <= i < own.len() && p(#[trigger] own[i]);
    assert(filed(groups[g]));
    lemma_filed_sides(groups[g], p);
    assert(own.contains(own[i]));
    lemma_contents_pending(groups, g, own[i]);
    let k = choose|k: int| 0 <= k < pending(groups).len() && pending(groups)[k] == own[i];
    assert(within(0, end - 1, p)(pending(groups)[k]));
}

/// Where no group before a boundary has a qualifying comment, none is pending there.
pub proof fn lemma_none_before(
    groups: Seq<CommentGroup>,
    last: int,
    end: u32,
    p: spec_fn(Comment) -> bool,
)
    requires
        groups_ok(groups),
        0 <= last <= groups.len(),
        forall|g: int| last <= g < groups.len() ==> end <= (#[trigger] groups[g]).anchor,
        forall|g: int| 0 <= g < last ==> !some_of(contents(#[trigger] groups[g]), p),
    ensures
        !some_of(pending(groups), within(0, end - 1, p)),
{
    let all = pending(groups);
    assert forall|i: int| 0 <= i < all.len() implies !within(0, end - 1, p)(#[trigger] all[i]) by {
        lemma_pending_element(groups, i);
        let g = choose|g: int|
            0 <= g < groups.len() && contents(#[trigger] groups[g]).contains(all[i]);
        let own = contents(groups[g]);
        let k = choose|k: int| 0 <= k < own.len() && own[k] == all[i];
        assert(filed(groups[g]));
        lemma_filed_sides(groups[g], p);
        if g < last {
            assert(!some_of(own, p));
            assert(!p(own[k]));
        }
    }
}

} // verus!
