//! Which assignments end up in one chain, and which do not.
use vstd::prelude::*;

use crate::compress::{
    is_settled, lemma_conflated_folded, lemma_conflated_settled, lemma_fused_neat,
};
use crate::conflate::{
    actions, all_fit, conflated, fit, folded, folded_actions, fused, is_repeatable, mergeable,
    passed, steps, Action, Binding, Item, Statement, Step, Target, Value,
};

verus! {

/// Is the value the same at all times, without running code: a number, a name that is never
/// assigned to, or the type of such a value?
pub open spec fn is_constant(value: Value) -> bool
    decreases value,
{
    match value {
        Value::Number(_) => true,
        Value::Name(r) => r.binding == Binding::Stable,
        Value::Typeof(inner) => is_constant(*inner),
        Value::Sum(_, _) | Value::Opaque(_) => false,
    }
}

/// Can the targets stand in one chain: are all of them names that have a binding, or all
/// properties of one object whose name is never assigned to, or all properties of `this`?
pub open spec fn one_chain(targets: Seq<Target>) -> bool {
    ||| forall|i: int|
        0 <= i < targets.len() ==> (#[trigger] targets[i]) is Name && targets[i]->Name_0.binding
            != Binding::Unresolved
    ||| forall|i: int|
        0 <= i < targets.len() ==> (#[trigger] targets[i]) is Member && targets[i]->Member_0
            == targets[0]->Member_0 && targets[i]->Member_0.binding == Binding::Stable
    ||| forall|i: int| 0 <= i < targets.len() ==> (#[trigger] targets[i]) is ThisMember
}

/// Are the two items assignments of one constant value whose targets can stand in one chain?
pub open spec fn belong_together(a: Action, b: Action) -> bool {
    match (a, b) {
        (Action::Assign(s, v), Action::Assign(t, w)) => s.len() > 0 && t.len() > 0 && v == w
            && is_constant(v) && one_chain(s + t),
        _ => false,
    }
}

/// A constant value is one that can be repeated.
proof fn lemma_constant(value: Value)
    ensures
        is_constant(value) <==> is_repeatable(value),
    decreases value,
{
    if let Value::Typeof(inner) = value {
        lemma_constant(*inner);
    }
}

/// Targets fit where they can stand in one chain.
proof fn lemma_one_chain(s: Seq<Target>, t: Seq<Target>)
    requires
        s.len() > 0,
    ensures
        one_chain(s + t) <==> all_fit(s[0], s) && all_fit(s[0], t),
{
    let all = s + t;
    assert(all[0] == s[0]);
    if one_chain(all) {
        assert forall|i: int| 0 <= i < s.len() implies fit(s[0], #[trigger] s[i]) by {
            assert(all[i] == s[i]);
            assert(all[0] == s[0]);
        }
        assert forall|i: int| 0 <= i < t.len() implies fit(s[0], #[trigger] t[i]) by {
            assert(all[s.len() + i] == t[i]);
            assert(all[0] == s[0]);
        }
    }
    if all_fit(s[0], s) && all_fit(s[0], t) {
        assert forall|i: int| 0 <= i < all.len() implies fit(s[0], #[trigger] all[i]) by {
            if i < s.len() {
                assert(fit(s[0], s[i]));
            } else {
                assert(fit(s[0], t[i - s.len()]));
            }
        }
        assert(fit(s[0], s[0]));
        match s[0] {
            Target::Name(_) => {
                assert forall|i: int| 0 <= i < all.len() implies (#[trigger] all[i]) is Name
                    && all[i]->Name_0.binding != Binding::Unresolved by {
                    assert(fit(s[0], all[i]));
                }
            },
            Target::Member(_, _) => {
                assert forall|i: int| 0 <= i < all.len() implies (#[trigger] all[i]) is Member
                    && all[i]->Member_0 == all[0]->Member_0 && all[i]->Member_0.binding
                    == Binding::Stable by {
                    assert(fit(s[0], all[i]));
                }
            },
            Target::ThisMember(_) => {
                assert forall|i: int| 0 <= i < all.len() implies (
                #[trigger] all[i]) is ThisMember by {
                    assert(fit(s[0], all[i]));
                }
            },
        }
    }
}

/// Items are merged where they belong together.
proof fn lemma_mergeable(a: Action, b: Action)
    ensures
        mergeable(a, b) <==> belong_together(a, b),
{
    if let (Action::Assign(s, v), Action::Assign(t, _)) = (a, b) {
        lemma_constant(v);
        if s.len() > 0 {
            lemma_one_chain(s, t);
        }
    }
}

/// No two items that belong together are left side by side.
pub proof fn law_conflation_is_thorough(items: Seq<Action>, i: int)
    requires
        0 < i < conflated(items).len(),
    ensures
        !belong_together(conflated(items)[i - 1], conflated(items)[i]),
{
    lemma_conflated_settled(items);
    assert(is_settled(conflated(items)));
    lemma_mergeable(conflated(items)[i - 1], conflated(items)[i]);
}

/// An item that was not there before is a chain of a constant value whose targets can stand in
/// one chain.
pub proof fn law_conflation_is_careful(items: Seq<Action>, i: int)
    requires
        0 <= i < conflated(items).len(),
    ensures
        items.contains(conflated(items)[i]) || match conflated(items)[i] {
            Action::Assign(targets, value) => is_constant(value) && one_chain(targets),
            Action::Other(_) => false,
        },
    decreases items.len(),
{
    let rest = items.drop_last();
    let before = conflated(rest);
    let out = conflated(items);
    let last = items.last();
    assert(items[items.len() - 1] == last);
    if i < before.len() && out[i] == before[i] {
        law_conflation_is_careful(rest, i);
        if rest.contains(before[i]) {
            let k = choose|k: int| 0 <= k < rest.len() && rest[k] == before[i];
            assert(items[k] == out[i]);
        }
    } else if before.len() > 0 && mergeable(before.last(), last) {
        lemma_mergeable(before.last(), last);
    }
}

/// The sums that a number of the language holds exactly are worked out, those of other numbers
/// and of other values are not, and nothing else is changed.
pub proof fn law_folding(value: Value)
    ensures
        match value {
            Value::Number(_) | Value::Name(_) | Value::Opaque(_) => folded(value) == value,
            Value::Typeof(inner) => folded(value) == Value::Typeof(Box::new(folded(*inner))),
            Value::Sum(left, right) => {
                let l = folded(*left);
                let r = folded(*right);
                let limit = 0x20_0000_0000_0000int;
                if l is Number && r is Number && -limit <= l->Number_0 <= limit && -limit
                    <= r->Number_0 <= limit && -limit <= l->Number_0 + r->Number_0 <= limit {
                    folded(value) is Number && folded(value)->Number_0 == l->Number_0
                        + r->Number_0
                } else {
                    folded(value) == Value::Sum(Box::new(l), Box::new(r))
                }
            },
        },
{
}

/// Does the value hold no sum of two numbers that could be worked out?
pub open spec fn is_worked_out(value: Value) -> bool
    decreases value,
{
    match value {
        Value::Number(_) | Value::Name(_) | Value::Opaque(_) => true,
        Value::Typeof(inner) => is_worked_out(*inner),
        Value::Sum(left, right) => {
            let limit = 0x20_0000_0000_0000int;
            &&& is_worked_out(*left)
            &&& is_worked_out(*right)
            &&& !(*left is Number && *right is Number && -limit <= left->Number_0 <= limit && -limit
                <= right->Number_0 <= limit && -limit <= left->Number_0 + right->Number_0 <= limit)
        },
    }
}

/// In a folded value nothing is left to be worked out.
pub proof fn law_folding_is_thorough(value: Value)
    ensures
        is_worked_out(folded(value)),
    decreases value,
{
    match value {
        Value::Typeof(inner) => {
            law_folding_is_thorough(*inner);
        },
        Value::Sum(left, right) => {
            law_folding_is_thorough(*left);
            law_folding_is_thorough(*right);
        },
        _ => {},
    }
}

/// The value of an item.
pub open spec fn value_in(action: Action) -> Value {
    match action {
        Action::Assign(_, value) => value,
        Action::Other(value) => value,
    }
}

/// After a pass no expression follows another, in none of them do two items that belong
/// together follow each other, and in no item is anything left to be worked out.
pub proof fn law_pass_is_thorough(body: Seq<Step>, i: int, k: int)
    requires
        0 <= i < passed(body).len(),
    ensures
        i > 0 ==> !(passed(body)[i - 1] is Expression && passed(body)[i] is Expression),
        passed(body)[i] matches Step::Expression(items) ==> 0 < k < items.len()
            ==> !belong_together(items[k - 1], items[k]),
        passed(body)[i] matches Step::Expression(items) ==> 0 <= k < items.len()
            ==> is_worked_out(value_in(items[k])),
{
    lemma_fused_neat(body);
    if let Step::Expression(items) = fused(body)[i] {
        assert(folded_actions(items) == items);
        lemma_conflated_folded(items);
        let out = conflated(items);
        if 0 <= k < out.len() {
            assert(folded_actions(out)[k] == out[k]);
            law_folding_is_thorough(value_in(out[k]));
        }
        if 0 < k < conflated(items).len() {
            law_conflation_is_thorough(items, k);
        }
    }
}

/// Items and statements are read as they are written.
pub proof fn law_readings(items: Seq<Item>, body: Seq<Statement>, i: int)
    ensures
        actions(items).len() == items.len(),
        steps(body).len() == body.len(),
        0 <= i < items.len() ==> match items[i] {
            Item::Assign(targets, value) => actions(items)[i] == Action::Assign(targets@, value),
            Item::Other(value) => actions(items)[i] == Action::Other(value),
        },
        0 <= i < body.len() ==> match body[i] {
            Statement::Expression(parts) => steps(body)[i] == Step::Expression(actions(parts@)),
            Statement::Opaque(id) => steps(body)[i] == Step::Opaque(id),
        },
{
}

} // verus!
