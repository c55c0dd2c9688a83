//! What running a function's body does, and that conflating assignments keeps it.
use vstd::prelude::*;

use crate::conflate::{
    all_fit, conflated, conflated_steps, fit, folded, folded_actions, fused, is_exact,
    is_repeatable, mergeable, merged, passed, Action, Binding, Reference, Step, Target, Value,
};

verus! {

/// The values that names hold, and everything else that code can read or change.
#[verifier::ext_equal]
pub struct State {
    pub names: Map<u32, int>,
    pub rest: int,
}

/// How the parts of a program that are not looked into behave. Values of the language are
/// told apart by numbers.
pub struct Machine {
    /// Is the name never assigned to?
    pub fixed: spec_fn(u32) -> bool,
    /// The value of an integer.
    pub number: spec_fn(int) -> int,
    /// The value of `this`.
    pub this: int,
    /// What `typeof` says of a value.
    pub type_of: spec_fn(int) -> int,
    /// Adds two values, which may run code.
    pub add_values: spec_fn(int, int, State) -> (int, State),
    /// Runs a piece of code.
    pub run: spec_fn(u32, State) -> (int, State),
    /// Reads a name that has no binding.
    pub read: spec_fn(u32, State) -> (int, State),
    /// Assigns to a name that has no binding.
    pub write: spec_fn(u32, int, State) -> State,
    /// Assigns to a property of an object, which may run code.
    pub put: spec_fn(int, u32, int, State) -> State,
}

impl Machine {
    /// The names that are never assigned to hold the same values in both states.
    pub open spec fn keeps(self, a: State, b: State) -> bool {
        forall|name: u32| (self.fixed)(name) ==> #[trigger] a.names[name] == b.names[name]
    }

    /// No code changes a name that is never assigned to, and integers are added as integers,
    /// as far as they are exact.
    pub open spec fn lawful(self) -> bool {
        &&& forall|x: int, y: int, s: State|
            self.keeps(s, (#[trigger] (self.add_values)(x, y, s)).1)
        &&& forall|id: u32, s: State| self.keeps(s, (#[trigger] (self.run)(id, s)).1)
        &&& forall|name: u32, s: State| self.keeps(s, (#[trigger] (self.read)(name, s)).1)
        &&& forall|name: u32, x: int, s: State|
            self.keeps(s, #[trigger] (self.write)(name, x, s))
        &&& forall|object: int, property: u32, x: int, s: State|
            self.keeps(s, #[trigger] (self.put)(object, property, x, s))
        &&& forall|a: int, b: int, s: State|
            is_exact(a) && is_exact(b) && is_exact(a + b) ==> #[trigger] (self.add_values)(
                (self.number)(a),
                (self.number)(b),
                s,
            ) == ((self.number)(a + b), s)
    }

    /// A name that is marked as stable is never assigned to.
    pub open spec fn agrees(self, r: Reference) -> bool {
        r.binding == Binding::Stable ==> (self.fixed)(r.name)
    }

    /// The names in a value are marked rightly.
    pub open spec fn agrees_on(self, value: Value) -> bool
        decreases value,
    {
        match value {
            Value::Number(_) => true,
            Value::Name(r) => self.agrees(r),
            Value::Typeof(inner) => self.agrees_on(*inner),
            Value::Sum(left, right) => self.agrees_on(*left) && self.agrees_on(*right),
            Value::Opaque(_) => true,
        }
    }

    /// The names in an item are marked rightly, and those assigned to are not among those that
    /// never are.
    pub open spec fn agrees_with(self, action: Action) -> bool {
        match action {
            Action::Assign(targets, value) => {
                &&& self.agrees_on(value)
                &&& forall|i: int|
                    0 <= i < targets.len() ==> match #[trigger] targets[i] {
                        Target::Name(r) => !(self.fixed)(r.name),
                        Target::Member(r, _) => self.agrees(r),
                        Target::ThisMember(_) => true,
                    }
            },
            Action::Other(value) => self.agrees_on(value),
        }
    }

    /// Works out a value.
    pub open spec fn value_of(self, value: Value, s: State) -> (int, State)
        decreases value,
    {
        match value {
            Value::Number(n) => ((self.number)(n as int), s),
            Value::Name(r) => if r.binding == Binding::Unresolved {
                (self.read)(r.name, s)
            } else {
                (s.names[r.name], s)
            },
            Value::Typeof(inner) => {
                let (x, t) = self.value_of(*inner, s);
                ((self.type_of)(x), t)
            },
            Value::Sum(left, right) => {
                let (x, t) = self.value_of(*left, s);
                let (y, u) = self.value_of(*right, t);
                (self.add_values)(x, y, u)
            },
            Value::Opaque(id) => (self.run)(id, s),
        }
    }

    /// Works out the object whose property a target is.
    pub open spec fn object_of(self, target: Target, s: State) -> (int, State) {
        match target {
            Target::Name(_) => (0, s),
            Target::Member(r, _) => if r.binding == Binding::Unresolved {
                (self.read)(r.name, s)
            } else {
                (s.names[r.name], s)
            },
            Target::ThisMember(_) => (self.this, s),
        }
    }

    /// Works out the objects of a chain, the target that is written to last coming first.
    pub open spec fn objects_of(self, targets: Seq<Target>, s: State) -> (Seq<int>, State)
        decreases targets.len(),
    {
        if targets.len() == 0 {
            (seq![], s)
        } else {
            let (object, t) = self.object_of(targets.last(), s);
            let (others, u) = self.objects_of(targets.drop_last(), t);
            (others.push(object), u)
        }
    }

    /// Writes a value to a target.
    pub open spec fn written(self, target: Target, object: int, x: int, s: State) -> State {
        match target {
            Target::Name(r) => if r.binding == Binding::Unresolved {
                (self.write)(r.name, x, s)
            } else {
                State { names: s.names.insert(r.name, x), ..s }
            },
            Target::Member(_, property) => (self.put)(object, property, x, s),
            Target::ThisMember(property) => (self.put)(object, property, x, s),
        }
    }

    /// Writes a value to the targets of a chain in turn.
    pub open spec fn all_written(
        self,
        targets: Seq<Target>,
        objects: Seq<int>,
        x: int,
        s: State,
    ) -> State
        decreases targets.len(),
    {
        if targets.len() == 0 {
            s
        } else {
            self.written(
                targets.last(),
                objects.last(),
                x,
                self.all_written(targets.drop_last(), objects.drop_last(), x, s),
            )
        }
    }

    /// Runs an item: the objects of a chain are worked out, then the value, then the value is
    /// written.
    pub open spec fn act(self, action: Action, s: State) -> State {
        match action {
            Action::Assign(targets, value) => {
                let (objects, t) = self.objects_of(targets, s);
                let (x, u) = self.value_of(value, t);
                self.all_written(targets, objects, x, u)
            },
            Action::Other(value) => self.value_of(value, s).1,
        }
    }

    /// Runs items in turn.
    pub open spec fn act_all(self, items: Seq<Action>, s: State) -> State
        decreases items.len(),
    {
        if items.len() == 0 {
            s
        } else {
            self.act(items.last(), self.act_all(items.drop_last(), s))
        }
    }

    /// Runs a statement.
    pub open spec fn step(self, step: Step, s: State) -> State {
        match step {
            Step::Expression(items) => self.act_all(items, s),
            Step::Opaque(id) => (self.run)(id, s).1,
        }
    }

    /// Runs a body.
    pub open spec fn body(self, body: Seq<Step>, s: State) -> State
        decreases body.len(),
    {
        if body.len() == 0 {
            s
        } else {
            self.step(body.last(), self.body(body.drop_last(), s))
        }
    }
}

/// The names in all items are marked rightly.
pub open spec fn all_agree(machine: Machine, items: Seq<Action>) -> bool {
    forall|i: int| 0 <= i < items.len() ==> machine.agrees_with(#[trigger] items[i])
}

/// The names in all statements are marked rightly.
pub open spec fn body_agrees(machine: Machine, body: Seq<Step>) -> bool {
    forall|i: int|
        0 <= i < body.len() ==> (#[trigger] body[i] matches Step::Expression(items) ==> all_agree(
            machine,
            items,
        ))
}

/// A repeatable value runs no code and is the same wherever the fixed names are.
proof fn lemma_repeatable(machine: Machine, value: Value, s: State, t: State)
    requires
        is_repeatable(value),
        machine.agrees_on(value),
        machine.keeps(s, t),
    ensures
        machine.value_of(value, s).1 == s,
        machine.value_of(value, t) == (machine.value_of(value, s).0, t),
    decreases value,
{
    match value {
        Value::Typeof(inner) => {
            lemma_repeatable(machine, *inner, s, t);
        },
        Value::Name(r) => {
            assert(s.names[r.name] == t.names[r.name]);
        },
        _ => {},
    }
}

/// The objects of a chain whose targets fit are all the same, and working them out runs no
/// code.
proof fn lemma_objects(machine: Machine, first: Target, targets: Seq<Target>, s: State, t: State)
    requires
        all_fit(first, targets),
        first matches Target::Member(r, _) ==> machine.agrees(r),
        machine.keeps(s, t),
    ensures
        machine.objects_of(targets, t) == (
            Seq::new(targets.len(), |i: int| machine.object_of(first, s).0),
            t,
        ),
    decreases targets.len(),
{
    if targets.len() > 0 {
        let rest = targets.drop_last();
        assert forall|i: int| 0 <= i < rest.len() implies fit(first, #[trigger] rest[i]) by {
            assert(fit(first, targets[i]));
        }
        lemma_objects(machine, first, rest, s, t);
        assert(fit(first, targets[targets.len() - 1]));
        if let Target::Member(r, _) = first {
            assert(s.names[r.name] == t.names[r.name]);
        }
    }
    assert(machine.objects_of(targets, t).0 =~= Seq::new(
        targets.len(),
        |i: int| machine.object_of(first, s).0,
    ));
}

/// Writing to the targets of a chain changes no fixed name.
proof fn lemma_written_keeps(
    machine: Machine,
    targets: Seq<Target>,
    objects: Seq<int>,
    x: int,
    s: State,
)
    requires
        machine.lawful(),
        forall|i: int|
            0 <= i < targets.len() ==> (#[trigger] targets[i] matches Target::Name(r) ==> !(
            machine.fixed)(r.name)),
    ensures
        machine.keeps(s, machine.all_written(targets, objects, x, s)),
    decreases targets.len(),
{
    if targets.len() > 0 {
        let rest = targets.drop_last();
        lemma_written_keeps(machine, rest, objects.drop_last(), x, s);
        let t = machine.all_written(rest, objects.drop_last(), x, s);
        let u = machine.written(targets.last(), objects.last(), x, t);
        assert(targets[targets.len() - 1] == targets.last());
        assert(machine.keeps(t, u));
        assert forall|name: u32| (machine.fixed)(name) implies #[trigger] s.names[name]
            == u.names[name] by {
            assert(t.names[name] == u.names[name]);
        }
    }
}

/// Writing to two chains in turn is writing to them as one.
proof fn lemma_written_add(
    machine: Machine,
    a: Seq<Target>,
    b: Seq<Target>,
    x: Seq<int>,
    y: Seq<int>,
    v: int,
    s: State,
)
    requires
        a.len() == x.len(),
        b.len() == y.len(),
    ensures
        machine.all_written(a + b, x + y, v, s) == machine.all_written(
            b,
            y,
            v,
            machine.all_written(a, x, v, s),
        ),
    decreases b.len(),
{
    if b.len() == 0 {
        assert(a + b =~= a);
        assert(x + y =~= x);
    } else {
        assert((a + b).drop_last() =~= a + b.drop_last());
        assert((x + y).drop_last() =~= x + y.drop_last());
        lemma_written_add(machine, a, b.drop_last(), x, y.drop_last(), v, s);
    }
}

/// A merged chain does what its parts do.
proof fn lemma_merged_acts(machine: Machine, a: Action, b: Action, s: State)
    requires
        machine.lawful(),
        mergeable(a, b),
        machine.agrees_with(a),
        machine.agrees_with(b),
    ensures
        machine.act(merged(a, b), s) == machine.act(b, machine.act(a, s)),
        machine.agrees_with(merged(a, b)),
{
    let p = a->Assign_0;
    let q = b->Assign_0;
    let v = a->Assign_1;
    let first = p[0];
    let object = machine.object_of(first, s).0;
    let x = machine.value_of(v, s).0;
    let ps = Seq::new(p.len(), |i: int| object);
    let qs = Seq::new(q.len(), |i: int| object);
    lemma_repeatable(machine, v, s, s);
    assert forall|i: int| 0 <= i < (p + q).len() implies fit(first, #[trigger] (p + q)[i]) by {
        if i < p.len() {
            assert(fit(first, p[i]));
        } else {
            assert(fit(first, q[i - p.len()]));
        }
    }
    lemma_objects(machine, first, p, s, s);
    lemma_objects(machine, first, p + q, s, s);
    let t = machine.all_written(p, ps, x, s);
    assert(machine.act(a, s) == t);
    assert forall|i: int| 0 <= i < p.len() implies (#[trigger] p[i] matches Target::Name(r) ==> !(
    machine.fixed)(r.name)) by {}
    lemma_written_keeps(machine, p, ps, x, s);
    lemma_objects(machine, first, q, s, t);
    lemma_repeatable(machine, v, s, t);
    assert(machine.act(b, t) == machine.all_written(q, qs, x, t));
    assert(Seq::new((p + q).len(), |i: int| object) =~= ps + qs);
    lemma_written_add(machine, p, q, ps, qs, x, s);
}

/// Conflated items do what the items do.
pub proof fn law_conflation_keeps_meaning(machine: Machine, items: Seq<Action>, s: State)
    requires
        machine.lawful(),
        all_agree(machine, items),
    ensures
        machine.act_all(conflated(items), s) == machine.act_all(items, s),
        all_agree(machine, conflated(items)),
    decreases items.len(),
{
    if items.len() > 0 {
        let rest = items.drop_last();
        let last = items.last();
        assert forall|i: int| 0 <= i < rest.len() implies machine.agrees_with(
            #[trigger] rest[i],
        ) by {
            assert(machine.agrees_with(items[i]));
        }
        law_conflation_keeps_meaning(machine, rest, s);
        let before = conflated(rest);
        let out = conflated(items);
        assert(machine.agrees_with(items[items.len() - 1]));
        if before.len() > 0 && mergeable(before.last(), last) {
            assert(machine.agrees_with(before[before.len() - 1]));
            let t = machine.act_all(before.drop_last(), s);
            lemma_merged_acts(machine, before.last(), last, t);
            assert(out.drop_last() =~= before.drop_last());
            assert forall|i: int| 0 <= i < out.len() implies machine.agrees_with(
                #[trigger] out[i],
            ) by {
                if i < out.len() - 1 {
                    assert(machine.agrees_with(before[i]));
                }
            }
        } else {
            assert(out.drop_last() =~= before);
            assert forall|i: int| 0 <= i < out.len() implies machine.agrees_with(
                #[trigger] out[i],
            ) by {
                if i < before.len() {
                    assert(machine.agrees_with(before[i]));
                }
            }
        }
    }
}

/// A folded value is the value.
pub proof fn law_folding_keeps_meaning(machine: Machine, value: Value, s: State)
    requires
        machine.lawful(),
    ensures
        machine.value_of(folded(value), s) == machine.value_of(value, s),
    decreases value,
{
    match value {
        Value::Typeof(inner) => {
            law_folding_keeps_meaning(machine, *inner, s);
        },
        Value::Sum(left, right) => {
            law_folding_keeps_meaning(machine, *left, s);
            let (x, t) = machine.value_of(*left, s);
            law_folding_keeps_meaning(machine, *right, t);
            let (y, u) = machine.value_of(*right, t);
            let l = folded(*left);
            let r = folded(*right);
            if let (Value::Number(a), Value::Number(b)) = (l, r) {
                if is_exact(a as int) && is_exact(b as int) && is_exact(a + b) {
                    assert((machine.add_values)(
                        (machine.number)(a as int),
                        (machine.number)(b as int),
                        s,
                    ) == ((machine.number)(a + b), s));
                }
            }
        },
        _ => {},
    }
}

/// Folding keeps the names of a value.
proof fn lemma_folded_agrees(machine: Machine, value: Value)
    requires
        machine.agrees_on(value),
    ensures
        machine.agrees_on(folded(value)),
    decreases value,
{
    match value {
        Value::Typeof(inner) => {
            lemma_folded_agrees(machine, *inner);
        },
        Value::Sum(left, right) => {
            lemma_folded_agrees(machine, *left);
            lemma_folded_agrees(machine, *right);
        },
        _ => {},
    }
}

/// Items with folded values do what the items do.
proof fn lemma_folded_acts(machine: Machine, items: Seq<Action>, s: State)
    requires
        machine.lawful(),
        all_agree(machine, items),
    ensures
        machine.act_all(folded_actions(items), s) == machine.act_all(items, s),
        all_agree(machine, folded_actions(items)),
    decreases items.len(),
{
    let out = folded_actions(items);
    assert forall|i: int| 0 <= i < out.len() implies machine.agrees_with(#[trigger] out[i]) by {
        assert(machine.agrees_with(items[i]));
        match items[i] {
            Action::Assign(_, value) => {
                lemma_folded_agrees(machine, value);
            },
            Action::Other(value) => {
                lemma_folded_agrees(machine, value);
            },
        }
    }
    if items.len() > 0 {
        let rest = items.drop_last();
        assert forall|i: int| 0 <= i < rest.len() implies machine.agrees_with(
            #[trigger] rest[i],
        ) by {
            assert(machine.agrees_with(items[i]));
        }
        lemma_folded_acts(machine, rest, s);
        assert(out.drop_last() =~= folded_actions(rest));
        let t = machine.act_all(rest, s);
        match items.last() {
            Action::Assign(targets, value) => {
                law_folding_keeps_meaning(machine, value, machine.objects_of(targets, t).1);
            },
            Action::Other(value) => {
                law_folding_keeps_meaning(machine, value, t);
            },
        }
    }
}

/// Items one behind the other are run one behind the other.
proof fn lemma_act_add(machine: Machine, a: Seq<Action>, b: Seq<Action>, s: State)
    ensures
        machine.act_all(a + b, s) == machine.act_all(b, machine.act_all(a, s)),
    decreases b.len(),
{
    if b.len() == 0 {
        assert(a + b =~= a);
    } else {
        assert((a + b).drop_last() =~= a + b.drop_last());
        lemma_act_add(machine, a, b.drop_last(), s);
    }
}

/// A body with fused expressions does what the body does.
pub proof fn law_fusing_keeps_meaning(machine: Machine, body: Seq<Step>, s: State)
    requires
        machine.lawful(),
        body_agrees(machine, body),
    ensures
        machine.body(fused(body), s) == machine.body(body, s),
        body_agrees(machine, fused(body)),
    decreases body.len(),
{
    if body.len() > 0 {
        let rest = body.drop_last();
        assert forall|i: int| 0 <= i < rest.len() implies (
        #[trigger] rest[i] matches Step::Expression(items) ==> all_agree(machine, items)) by {
            assert(body[i] == rest[i]);
        }
        law_fusing_keeps_meaning(machine, rest, s);
        let before = fused(rest);
        let out = fused(body);
        assert(body[body.len() - 1] == body.last());
        match body.last() {
            Step::Opaque(_) => {
                assert(out.drop_last() =~= before);
            },
            Step::Expression(items) => {
                let new = folded_actions(items);
                if before.len() > 0 && before.last() is Expression {
                    let earlier = before.last()->Expression_0;
                    let t = machine.body(before.drop_last(), s);
                    assert(before[before.len() - 1] == before.last());
                    lemma_folded_acts(machine, items, machine.act_all(earlier, t));
                    lemma_act_add(machine, earlier, new, t);
                    assert(out.drop_last() =~= before.drop_last());
                    assert(all_agree(machine, earlier + new));
                } else {
                    lemma_folded_acts(machine, items, machine.body(before, s));
                    assert(out.drop_last() =~= before);
                }
            },
        }
        assert forall|i: int| 0 <= i < out.len() implies (
        #[trigger] out[i] matches Step::Expression(items) ==> all_agree(machine, items)) by {
            if i < out.len() - 1 {
                assert(out[i] == before[i]);
            }
        }
    }
}

/// Statements with conflated items do what the statements do.
proof fn lemma_conflated_steps_act(machine: Machine, body: Seq<Step>, s: State)
    requires
        machine.lawful(),
        body_agrees(machine, body),
    ensures
        machine.body(conflated_steps(body), s) == machine.body(body, s),
    decreases body.len(),
{
    if body.len() > 0 {
        let rest = body.drop_last();
        assert forall|i: int| 0 <= i < rest.len() implies (
        #[trigger] rest[i] matches Step::Expression(items) ==> all_agree(machine, items)) by {
            assert(body[i] == rest[i]);
        }
        lemma_conflated_steps_act(machine, rest, s);
        assert(conflated_steps(body).drop_last() =~= conflated_steps(rest));
        assert(body[body.len() - 1] == body.last());
        if let Step::Expression(items) = body.last() {
            law_conflation_keeps_meaning(machine, items, machine.body(rest, s));
        }
    }
}

/// A pass over a body keeps what the body does, whatever the code that is not looked into
/// does, setters included.
pub proof fn law_pass_keeps_meaning(machine: Machine, body: Seq<Step>, s: State)
    requires
        machine.lawful(),
        body_agrees(machine, body),
    ensures
        machine.body(passed(body), s) == machine.body(body, s),
{
    law_fusing_keeps_meaning(machine, body, s);
    lemma_conflated_steps_act(machine, fused(body), s);
}

} // verus!
