//! Conflating the assignments of a function's body, and what that leaves unchanged.
use vstd::prelude::*;

use crate::conflate::{
    conflated, conflated_steps, fit, folded, folded_action, folded_actions, fused, is_same_body,
    mergeable, merged, pass, passed, steps, Action, Statement, Step, Target, Value,
};

verus! {

/// Passes over a body until a pass changes nothing, and counts the passes that changed
/// something.
pub fn compress(body: Vec<Statement>) -> (result: (Vec<Statement>, usize))
    ensures
        steps(result.0@) == passed(steps(body@)),
        result.1 == (if passed(steps(body@)) == steps(body@) {
            0int
        } else {
            1int
        }),
{
    let mut current: Vec<Statement> = body;
    let mut iterations: usize = 0;
    let ghost start = steps(body@);
    proof {
        law_pass_settles(start);
    }
    loop
        invariant_except_break
            iterations <= 1,
            passed(passed(start)) == passed(start),
            iterations == 0 ==> steps(current@) == start,
            iterations == 1 ==> steps(current@) == passed(start) && passed(start) != start,
        ensures
            steps(current@) == passed(start),
            iterations == (if passed(start) == start {
                0int
            } else {
                1int
            }),
        decreases 1 - iterations,
    {
        let next: Vec<Statement> = pass(&current);
        if is_same_body(&next, &current) {
            break;
        }
        current = next;
        iterations = iterations + 1;
    }
    (current, iterations)
}

/// Folding a folded value changes nothing.
pub proof fn law_folding_settles(value: Value)
    ensures
        folded(folded(value)) == folded(value),
    decreases value,
{
    match value {
        Value::Typeof(inner) => {
            law_folding_settles(*inner);
        },
        Value::Sum(left, right) => {
            law_folding_settles(*left);
            law_folding_settles(*right);
        },
        _ => {},
    }
}

/// No two items that follow each other can be merged.
pub open spec fn is_settled(items: Seq<Action>) -> bool {
    forall|i: int| 0 < i < items.len() ==> !mergeable(items[i - 1], #[trigger] items[i])
}

/// A chain can be merged with what comes before it only where its first part can.
proof fn lemma_merged_front(a: Action, b: Action, c: Action)
    requires
        mergeable(b, c),
        mergeable(a, merged(b, c)),
    ensures
        mergeable(a, b),
{
    let s = a->Assign_0;
    let t = b->Assign_0;
    let u = c->Assign_0;
    assert forall|i: int| 0 <= i < t.len() implies fit(s[0], #[trigger] t[i]) by {
        assert((t + u)[i] == t[i]);
    }
}

/// Conflation leaves nothing to merge.
pub proof fn lemma_conflated_settled(items: Seq<Action>)
    ensures
        is_settled(conflated(items)),
    decreases items.len(),
{
    if items.len() > 0 {
        lemma_conflated_settled(items.drop_last());
        let before = conflated(items.drop_last());
        let last = items.last();
        let out = conflated(items);
        assert forall|i: int| 0 < i < out.len() implies !mergeable(
            out[i - 1],
            #[trigger] out[i],
        ) by {
            if i < out.len() - 1 {
                assert(!mergeable(before[i - 1], before[i]));
            } else if before.len() > 0 && mergeable(before.last(), last) {
                assert(!mergeable(before[i - 1], before[i]));
                if mergeable(out[i - 1], out[i]) {
                    lemma_merged_front(before[i - 1], before[i], last);
                }
            }
        }
    }
}

/// Items among which none can be merged are left as they are.
pub proof fn law_unmergeable_items_are_kept(items: Seq<Action>)
    requires
        is_settled(items),
    ensures
        conflated(items) == items,
    decreases items.len(),
{
    if items.len() > 0 {
        let rest = items.drop_last();
        assert forall|i: int| 0 < i < rest.len() implies !mergeable(
            rest[i - 1],
            #[trigger] rest[i],
        ) by {
            assert(!mergeable(items[i - 1], items[i]));
        }
        law_unmergeable_items_are_kept(rest);
        if rest.len() > 0 {
            assert(!mergeable(items[items.len() - 2], items[items.len() - 1]));
        }
        assert(rest.push(items.last()) =~= items);
    }
}

/// Conflating conflated items changes nothing.
pub proof fn law_conflating_settles(items: Seq<Action>)
    ensures
        conflated(conflated(items)) == conflated(items),
{
    lemma_conflated_settled(items);
    law_unmergeable_items_are_kept(conflated(items));
}

/// The values of a chain stay folded.
pub proof fn lemma_conflated_folded(items: Seq<Action>)
    requires
        folded_actions(items) == items,
    ensures
        folded_actions(conflated(items)) == conflated(items),
    decreases items.len(),
{
    if items.len() > 0 {
        let rest = items.drop_last();
        assert forall|i: int| 0 <= i < items.len() implies folded_action(#[trigger] items[i])
            == items[i] by {
            assert(folded_actions(items)[i] == items[i]);
        }
        assert(folded_actions(rest) =~= rest) by {
            assert forall|i: int| 0 <= i < rest.len() implies folded_actions(rest)[i] == rest[i] by {
                assert(folded_action(items[i]) == items[i]);
            }
        }
        lemma_conflated_folded(rest);
        let before = conflated(rest);
        let out = conflated(items);
        assert forall|i: int| 0 <= i < out.len() implies folded_actions(out)[i] == out[i] by {
            if i < before.len() {
                assert(folded_actions(before)[i] == before[i]);
            }
            assert(folded_action(items[items.len() - 1]) == items[items.len() - 1]);
        }
        assert(folded_actions(out) =~= out);
    } else {
        assert(folded_actions(conflated(items)) =~= conflated(items));
    }
}

/// The values are folded, and no expression follows another.
pub open spec fn is_neat(body: Seq<Step>) -> bool {
    &&& forall|i: int|
        0 <= i < body.len() ==> (#[trigger] body[i] matches Step::Expression(items)
            ==> folded_actions(items) == items)
    &&& forall|i: int|
        0 < i < body.len() ==> !(body[i - 1] is Expression && (#[trigger] body[i]) is Expression)
}

/// Folded items stay folded, one behind the other.
proof fn lemma_folded_add(a: Seq<Action>, b: Seq<Action>)
    requires
        folded_actions(a) == a,
    ensures
        folded_actions(a + folded_actions(b)) == a + folded_actions(b),
{
    let all = a + folded_actions(b);
    assert forall|i: int| 0 <= i < all.len() implies folded_actions(all)[i] == all[i] by {
        if i < a.len() {
            assert(folded_actions(a)[i] == a[i]);
        } else {
            match b[i - a.len()] {
                Action::Assign(_, value) => {
                    law_folding_settles(value);
                },
                Action::Other(value) => {
                    law_folding_settles(value);
                },
            }
        }
    }
    assert(folded_actions(all) =~= all);
}

/// Fusing leaves a body neat.
pub proof fn lemma_fused_neat(body: Seq<Step>)
    ensures
        is_neat(fused(body)),
    decreases body.len(),
{
    if body.len() > 0 {
        lemma_fused_neat(body.drop_last());
        let before = fused(body.drop_last());
        if let Step::Expression(items) = body.last() {
            let none = Seq::<Action>::empty();
            assert(folded_actions(none) =~= none);
            lemma_folded_add(none, items);
            assert(none + folded_actions(items) =~= folded_actions(items));
            if before.len() > 0 && before.last() is Expression {
                assert(before[before.len() - 1] is Expression);
                lemma_folded_add(before.last()->Expression_0, items);
            }
        }
        let out = fused(body);
        assert forall|i: int| 0 < i < out.len() implies !(out[i - 1] is Expression && (
        #[trigger] out[i]) is Expression) by {
            if i < before.len() {
                assert(!(before[i - 1] is Expression && before[i] is Expression));
            }
        }
    }
}

/// A neat body is left as it is by fusing.
proof fn lemma_neat_is_fused(body: Seq<Step>)
    requires
        is_neat(body),
    ensures
        fused(body) == body,
    decreases body.len(),
{
    if body.len() > 0 {
        let rest = body.drop_last();
        assert forall|i: int| 0 < i < rest.len() implies !(rest[i - 1] is Expression && (
        #[trigger] rest[i]) is Expression) by {
            assert(!(body[i - 1] is Expression && body[i] is Expression));
        }
        lemma_neat_is_fused(rest);
        let n = body.len() as int;
        if rest.len() > 0 {
            assert(!(body[n - 2] is Expression && body[n - 1] is Expression));
        }
        assert(body[n - 1] == body.last());
        assert(rest.push(body.last()) =~= body);
    }
}

/// A second pass over a body changes nothing: fusing the statements and conflating the
/// assignments take one pass together.
pub proof fn law_pass_settles(body: Seq<Step>)
    ensures
        passed(passed(body)) == passed(body),
{
    let whole = fused(body);
    let out = conflated_steps(whole);
    lemma_fused_neat(body);
    assert forall|i: int| 0 <= i < out.len() implies (#[trigger] out[i] matches Step::Expression(
        items,
    ) ==> folded_actions(items) == items) by {
        if let Step::Expression(items) = whole[i] {
            lemma_conflated_folded(items);
        }
    }
    assert forall|i: int| 0 < i < out.len() implies !(out[i - 1] is Expression && (
    #[trigger] out[i]) is Expression) by {
        assert(!(whole[i - 1] is Expression && whole[i] is Expression));
    }
    lemma_neat_is_fused(out);
    assert forall|i: int| 0 <= i < out.len() implies conflated_steps(out)[i] == out[i] by {
        if let Step::Expression(items) = whole[i] {
            law_conflating_settles(items);
        }
    }
    assert(conflated_steps(out) =~= out);
}

/// A chain as assignments to one target each.
pub open spec fn spread_chain(targets: Seq<Target>, value: Value) -> Seq<Action> {
    Seq::new(targets.len(), |i: int| Action::Assign(seq![targets[i]], value))
}

/// The items with every chain written as assignments to one target each.
pub open spec fn spread(items: Seq<Action>) -> Seq<Action>
    decreases items.len(),
{
    if items.len() == 0 {
        items
    } else {
        let before = spread(items.drop_last());
        match items.last() {
            Action::Assign(targets, value) => before + spread_chain(targets, value),
            Action::Other(_) => before.push(items.last()),
        }
    }
}

/// Conflation can be undone: written out again, the chains are the assignments that were
/// there, in the same order.
pub proof fn law_conflation_keeps_assignments(items: Seq<Action>)
    ensures
        spread(conflated(items)) == spread(items),
    decreases items.len(),
{
    if items.len() > 0 {
        law_conflation_keeps_assignments(items.drop_last());
        let before = conflated(items.drop_last());
        let out = conflated(items);
        if before.len() > 0 && mergeable(before.last(), items.last()) {
            let s = before.last()->Assign_0;
            let t = items.last()->Assign_0;
            let v = items.last()->Assign_1;
            assert(out.drop_last() =~= before.drop_last());
            assert(spread_chain(s + t, v) =~= spread_chain(s, v) + spread_chain(t, v));
            assert(spread(out) =~= spread(items));
        } else {
            assert(out.drop_last() =~= before);
        }
    }
}

} // verus!
