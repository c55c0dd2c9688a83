//! Equal assignments that follow each other, written as one: `x = v, y = v` as `y = x = v`.
use vstd::prelude::*;

verus! {

/// What is known of the binding that a name refers to.
#[derive(Clone, Copy, Debug, PartialEq, Eq, Structural)]
pub enum Binding {
    /// There is none: the name belongs to the surroundings.
    Unresolved,
    /// It is assigned to somewhere.
    Mutable,
    /// It keeps the value it was created with.
    Stable,
}

/// A name, as a number, and its binding.
#[derive(Clone, Copy, Debug, PartialEq, Eq, Structural)]
pub struct Reference {
    /// The name.
    pub name: u32,
    /// Its binding.
    pub binding: Binding,
}

/// The right-hand side of an assignment.
#[derive(Debug)]
pub enum Value {
    /// An integer.
    Number(i64),
    /// A name.
    Name(Reference),
    /// `typeof value`
    Typeof(Box<Value>),
    /// `left + right`
    Sum(Box<Value>, Box<Value>),
    /// Anything else, by a number: it may run code, or give another value each time.
    Opaque(u32),
}

/// What is assigned to.
#[derive(Clone, Copy, Debug, PartialEq, Eq, Structural)]
pub enum Target {
    /// A name.
    Name(Reference),
    /// A property, by a number, of the object that a name refers to.
    Member(Reference, u32),
    /// A property, by a number, of `this`.
    ThisMember(u32),
}

/// One of the expressions that a comma separates.
#[derive(Debug)]
pub enum Item {
    /// A chain of assignments of one value. The targets come in the order in which they are
    /// written to: `y = x = v` has `x` first.
    Assign(Vec<Target>, Value),
    /// Any other expression.
    Other(Value),
}

/// A statement of a function's body.
#[derive(Debug)]
pub enum Statement {
    /// An expression, as its comma-separated parts.
    Expression(Vec<Item>),
    /// Any other statement, by a number.
    Opaque(u32),
}

/// An item, as a mathematical value.
#[verifier::ext_equal]
pub enum Action {
    Assign(Seq<Target>, Value),
    Other(Value),
}

/// A statement, as a mathematical value.
#[verifier::ext_equal]
pub enum Step {
    Expression(Seq<Action>),
    Opaque(u32),
}

impl View for Item {
    type V = Action;

    open spec fn view(&self) -> Action {
        match self {
            Item::Assign(targets, value) => Action::Assign(targets@, *value),
            Item::Other(value) => Action::Other(*value),
        }
    }
}

/// The items as mathematical values.
pub open spec fn actions(items: Seq<Item>) -> Seq<Action> {
    Seq::new(items.len(), |i: int| items[i]@)
}

impl View for Statement {
    type V = Step;

    open spec fn view(&self) -> Step {
        match self {
            Statement::Expression(items) => Step::Expression(actions(items@)),
            Statement::Opaque(id) => Step::Opaque(*id),
        }
    }
}

/// The statements as mathematical values.
pub open spec fn steps(body: Seq<Statement>) -> Seq<Step> {
    Seq::new(body.len(), |i: int| body[i]@)
}

/// The integers that a number of the language holds exactly.
pub open spec fn is_exact(n: int) -> bool {
    -0x20_0000_0000_0000 <= n <= 0x20_0000_0000_0000
}

/// A value with the sums of numbers in it worked out, as far as they are exact.
pub open spec fn folded(value: Value) -> Value
    decreases value,
{
    match value {
        Value::Typeof(inner) => Value::Typeof(Box::new(folded(*inner))),
        Value::Sum(left, right) => {
            let l = folded(*left);
            let r = folded(*right);
            match (l, r) {
                (Value::Number(a), Value::Number(b)) if is_exact(a as int) && is_exact(b as int)
                    && is_exact(a + b) => Value::Number((a + b) as i64),
                _ => Value::Sum(Box::new(l), Box::new(r)),
            }
        },
        _ => value,
    }
}

/// Does the value stay the same however often it is worked out, without running code?
pub open spec fn is_repeatable(value: Value) -> bool
    decreases value,
{
    match value {
        Value::Number(_) => true,
        Value::Name(r) => r.binding == Binding::Stable,
        Value::Typeof(inner) => is_repeatable(*inner),
        Value::Sum(_, _) => false,
        Value::Opaque(_) => false,
    }
}

/// Can two targets stand in one chain? Both are resolved names, or properties of one and the
/// same object that stays the same.
pub open spec fn fit(a: Target, b: Target) -> bool {
    match (a, b) {
        (Target::Name(r), Target::Name(s)) => r.binding != Binding::Unresolved && s.binding
            != Binding::Unresolved,
        (Target::Member(r, _), Target::Member(s, _)) => r == s && r.binding == Binding::Stable,
        (Target::ThisMember(_), Target::ThisMember(_)) => true,
        _ => false,
    }
}

/// Do all targets fit the given one?
pub open spec fn all_fit(first: Target, targets: Seq<Target>) -> bool {
    forall|i: int| 0 <= i < targets.len() ==> fit(first, #[trigger] targets[i])
}

/// Can two items that follow each other be written as one chain?
pub open spec fn mergeable(a: Action, b: Action) -> bool {
    match (a, b) {
        (Action::Assign(s, v), Action::Assign(t, w)) => {
            &&& v == w
            &&& is_repeatable(v)
            &&& s.len() > 0
            &&& t.len() > 0
            &&& all_fit(s[0], s)
            &&& all_fit(s[0], t)
        },
        _ => false,
    }
}

/// Two items as one chain.
pub open spec fn merged(a: Action, b: Action) -> Action {
    match (a, b) {
        (Action::Assign(s, v), Action::Assign(t, _)) => Action::Assign(s + t, v),
        _ => a,
    }
}

/// The items with every run of mergeable ones written as one chain.
pub open spec fn conflated(items: Seq<Action>) -> Seq<Action>
    decreases items.len(),
{
    if items.len() == 0 {
        items
    } else {
        let before = conflated(items.drop_last());
        if before.len() > 0 && mergeable(before.last(), items.last()) {
            before.drop_last().push(merged(before.last(), items.last()))
        } else {
            before.push(items.last())
        }
    }
}

/// An item with its value folded.
pub open spec fn folded_action(action: Action) -> Action {
    match action {
        Action::Assign(targets, value) => Action::Assign(targets, folded(value)),
        Action::Other(value) => Action::Other(folded(value)),
    }
}

/// The items with their values folded.
pub open spec fn folded_actions(items: Seq<Action>) -> Seq<Action> {
    Seq::new(items.len(), |i: int| folded_action(items[i]))
}

/// The statements with the values in them folded and expressions that follow each other
/// fused into one.
pub open spec fn fused(body: Seq<Step>) -> Seq<Step>
    decreases body.len(),
{
    if body.len() == 0 {
        body
    } else {
        let before = fused(body.drop_last());
        match body.last() {
            Step::Opaque(_) => before.push(body.last()),
            Step::Expression(items) => {
                let new = folded_actions(items);
                if before.len() > 0 && before.last() is Expression {
                    before.drop_last().push(Step::Expression(before.last()->Expression_0 + new))
                } else {
                    before.push(Step::Expression(new))
                }
            },
        }
    }
}

/// The statements with the items in each conflated.
pub open spec fn conflated_steps(body: Seq<Step>) -> Seq<Step> {
    Seq::new(
        body.len(),
        |i: int|
            match body[i] {
                Step::Expression(items) => Step::Expression(conflated(items)),
                Step::Opaque(_) => body[i],
            },
    )
}

/// One pass over a body: fold, fuse, conflate.
pub open spec fn passed(body: Seq<Step>) -> Seq<Step> {
    conflated_steps(fused(body))
}

impl Value {
    /// A copy of the value.
    pub fn copied(&self) -> (value: Value)
        ensures
            value == *self,
        decreases self,
    {
        match self {
            Value::Number(n) => Value::Number(*n),
            Value::Name(r) => Value::Name(*r),
            Value::Typeof(inner) => Value::Typeof(Box::new(inner.copied())),
            Value::Sum(left, right) => Value::Sum(
                Box::new(left.copied()),
                Box::new(right.copied()),
            ),
            Value::Opaque(id) => Value::Opaque(*id),
        }
    }

    /// Are the two values written alike?
    pub fn is_same(&self, other: &Value) -> (same: bool)
        ensures
            same == (*self == *other),
        decreases self,
    {
        match (self, other) {
            (Value::Number(a), Value::Number(b)) => *a == *b,
            (Value::Name(a), Value::Name(b)) => *a == *b,
            (Value::Typeof(a), Value::Typeof(b)) => a.is_same(b),
            (Value::Sum(a, b), Value::Sum(c, d)) => a.is_same(c) && b.is_same(d),
            (Value::Opaque(a), Value::Opaque(b)) => *a == *b,
            _ => false,
        }
    }

    /// Works out the sums of numbers, as far as they are exact.
    pub fn fold(&self) -> (value: Value)
        ensures
            value == folded(*self),
        decreases self,
    {
        match self {
            Value::Typeof(inner) => Value::Typeof(Box::new(inner.fold())),
            Value::Sum(left, right) => {
                let l: Value = left.fold();
                let r: Value = right.fold();
                if let (Value::Number(a), Value::Number(b)) = (&l, &r) {
                    if exact(*a) && exact(*b) && exact(*a + *b) {
                        return Value::Number(*a + *b);
                    }
                }
                Value::Sum(Box::new(l), Box::new(r))
            },
            _ => self.copied(),
        }
    }

    /// Does the value stay the same however often it is worked out, without running code?
    pub fn repeatable(&self) -> (b: bool)
        ensures
            b == is_repeatable(*self),
        decreases self,
    {
        match self {
            Value::Number(_) => true,
            Value::Name(r) => r.binding == Binding::Stable,
            Value::Typeof(inner) => inner.repeatable(),
            Value::Sum(_, _) => false,
            Value::Opaque(_) => false,
        }
    }
}

/// Does a number of the language hold the integer exactly?
fn exact(n: i64) -> (b: bool)
    ensures
        b == is_exact(n as int),
{
    -0x20_0000_0000_0000 <= n && n <= 0x20_0000_0000_0000
}

/// Can two targets stand in one chain?
fn fits(a: Target, b: Target) -> (yes: bool)
    ensures
        yes == fit(a, b),
{
    match (a, b) {
        (Target::Name(r), Target::Name(s)) => r.binding != Binding::Unresolved && s.binding
            != Binding::Unresolved,
        (Target::Member(r, _), Target::Member(s, _)) => r == s && r.binding == Binding::Stable,
        (Target::ThisMember(_), Target::ThisMember(_)) => true,
        _ => false,
    }
}

/// Do all targets fit the given one?
fn all_fits(first: Target, targets: &Vec<Target>) -> (yes: bool)
    ensures
        yes == all_fit(first, targets@),
{
    let mut i: usize = 0;
    while i < targets.len()
        invariant
            i <= targets@.len(),
            forall|k: int| 0 <= k < i ==> fit(first, #[trigger] targets@[k]),
        decreases targets@.len() - i,
    {
        if !fits(first, targets[i]) {
            assert(!fit(first, targets@[i as int]));
            return false;
        }
        i = i + 1;
    }
    true
}

/// Can two items that follow each other be written as one chain?
pub fn can_merge(a: &Item, b: &Item) -> (yes: bool)
    ensures
        yes == mergeable(a@, b@),
{
    match (a, b) {
        (Item::Assign(s, v), Item::Assign(t, w)) => v.is_same(w) && v.repeatable() && s.len() > 0
            && t.len() > 0 && all_fits(s[0], s) && all_fits(s[0], t),
        _ => false,
    }
}

/// A copy of the targets behind others.
fn extend_targets(targets: &mut Vec<Target>, more: &Vec<Target>)
    ensures
        final(targets)@ == old(targets)@ + more@,
{
    let mut i: usize = 0;
    assert(old(targets)@ + more@.take(0) =~= old(targets)@);
    while i < more.len()
        invariant
            i <= more@.len(),
            targets@ == old(targets)@ + more@.take(i as int),
        decreases more@.len() - i,
    {
        targets.push(more[i]);
        assert(targets@ =~= old(targets)@ + more@.take(i + 1));
        i = i + 1;
    }
    assert(more@.take(more@.len() as int) =~= more@);
}

/// Are the targets the same?
fn same_targets(s: &Vec<Target>, t: &Vec<Target>) -> (same: bool)
    ensures
        same == (s@ == t@),
{
    if s.len() != t.len() {
        return false;
    }
    let mut i: usize = 0;
    while i < s.len()
        invariant
            i <= s@.len() == t@.len(),
            forall|k: int| 0 <= k < i ==> s@[k] == t@[k],
        decreases s@.len() - i,
    {
        if s[i] != t[i] {
            return false;
        }
        i = i + 1;
    }
    assert(s@ =~= t@);
    true
}

impl Item {
    /// A copy of the item.
    pub fn copied(&self) -> (item: Item)
        ensures
            item@ == self@,
    {
        match self {
            Item::Assign(targets, value) => {
                let mut copy: Vec<Target> = Vec::new();
                extend_targets(&mut copy, targets);
                assert(copy@ =~= targets@);
                Item::Assign(copy, value.copied())
            },
            Item::Other(value) => Item::Other(value.copied()),
        }
    }

    /// The item with its value folded.
    pub fn fold(&self) -> (item: Item)
        ensures
            item@ == folded_action(self@),
    {
        match self {
            Item::Assign(targets, value) => {
                let mut copy: Vec<Target> = Vec::new();
                extend_targets(&mut copy, targets);
                assert(copy@ =~= targets@);
                Item::Assign(copy, value.fold())
            },
            Item::Other(value) => Item::Other(value.fold()),
        }
    }

    /// Are the two items written alike?
    pub fn is_same(&self, other: &Item) -> (same: bool)
        ensures
            same == (self@ == other@),
    {
        match (self, other) {
            (Item::Assign(s, v), Item::Assign(t, w)) => same_targets(s, t) && v.is_same(w),
            (Item::Other(v), Item::Other(w)) => v.is_same(w),
            _ => false,
        }
    }
}

/// Writes every run of mergeable items as one chain.
pub fn conflate(items: &Vec<Item>) -> (out: Vec<Item>)
    ensures
        actions(out@) == conflated(actions(items@)),
{
    let ghost all = actions(items@);
    let mut out: Vec<Item> = Vec::new();
    let mut i: usize = 0;
    assert(all.take(0) =~= Seq::<Action>::empty());
    assert(actions(out@) =~= Seq::<Action>::empty());
    while i < items.len()
        invariant
            i <= items@.len(),
            all == actions(items@),
            actions(out@) == conflated(all.take(i as int)),
        decreases items@.len() - i,
    {
        let item: &Item = &items[i];
        let ghost before = out@;
        assert(all.take(i + 1).drop_last() =~= all.take(i as int));
        assert(all.take(i + 1).last() == item@);
        let last: usize = out.len();
        if last > 0 {
            assert(actions(before).last() == before[last - 1]@);
        }
        if last > 0 && can_merge(&out[last - 1], item) {
            if let Some(popped) = out.pop() {
                assert(popped == before[last - 1]);
                if let (Item::Assign(targets, value), Item::Assign(more, _)) = (popped, item) {
                    let mut targets: Vec<Target> = targets;
                    extend_targets(&mut targets, more);
                    out.push(Item::Assign(targets, value));
                }
            }
            assert(actions(out@) =~= actions(before).drop_last().push(
                merged(actions(before).last(), item@),
            ));
        } else {
            out.push(item.copied());
            assert(actions(out@) =~= actions(before).push(item@));
        }
        i = i + 1;
    }
    assert(all.take(all.len() as int) =~= all);
    out
}

/// Folds the items and puts them behind others.
fn extend_folded(out: &mut Vec<Item>, items: &Vec<Item>)
    ensures
        actions(final(out)@) == actions(old(out)@) + folded_actions(actions(items@)),
{
    let ghost new = folded_actions(actions(items@));
    let mut i: usize = 0;
    assert(actions(out@) + new.take(0) =~= actions(out@));
    while i < items.len()
        invariant
            i <= items@.len(),
            new == folded_actions(actions(items@)),
            actions(out@) == actions(old(out)@) + new.take(i as int),
        decreases items@.len() - i,
    {
        let ghost before = out@;
        out.push(items[i].fold());
        assert(actions(out@) =~= actions(before).push(new[i as int]));
        assert(new.take(i + 1) =~= new.take(i as int).push(new[i as int]));
        assert(actions(out@) =~= actions(old(out)@) + new.take(i + 1));
        i = i + 1;
    }
    assert(new.take(new.len() as int) =~= new);
}

/// Folds the values of a body and fuses expressions that follow each other.
pub fn fuse(body: &Vec<Statement>) -> (out: Vec<Statement>)
    ensures
        steps(out@) == fused(steps(body@)),
{
    let ghost all = steps(body@);
    let mut out: Vec<Statement> = Vec::new();
    let mut i: usize = 0;
    assert(all.take(0) =~= Seq::<Step>::empty());
    assert(steps(out@) =~= Seq::<Step>::empty());
    while i < body.len()
        invariant
            i <= body@.len(),
            all == steps(body@),
            steps(out@) == fused(all.take(i as int)),
        decreases body@.len() - i,
    {
        let ghost before = out@;
        assert(all.take(i + 1).drop_last() =~= all.take(i as int));
        assert(all.take(i + 1).last() == body@[i as int]@);
        if out.len() > 0 {
            assert(steps(before).last() == before[before.len() - 1]@);
        }
        match &body[i] {
            Statement::Opaque(id) => {
                out.push(Statement::Opaque(*id));
                assert(steps(out@) =~= steps(before).push(Step::Opaque(*id)));
            },
            Statement::Expression(items) => {
                let ghost new = folded_actions(actions(items@));
                let open: bool = out.len() > 0 && matches!(
                    out[out.len() - 1],
                    Statement::Expression(_)
                );
                let mut fused_items: Vec<Item> = Vec::new();
                if open {
                    if let Some(Statement::Expression(earlier)) = out.pop() {
                        fused_items = earlier;
                    }
                }
                let ghost earlier = fused_items@;
                extend_folded(&mut fused_items, items);
                let ghost now = actions(fused_items@);
                out.push(Statement::Expression(fused_items));
                proof {
                    if open {
                        assert(steps(out@) =~= steps(before).drop_last().push(
                            Step::Expression(now),
                        ));
                    } else {
                        assert(actions(earlier) =~= Seq::<Action>::empty());
                        assert(now =~= new);
                        assert(steps(out@) =~= steps(before).push(Step::Expression(now)));
                    }
                }
            },
        }
        i = i + 1;
    }
    assert(all.take(all.len() as int) =~= all);
    out
}

/// One pass over a body: fold, fuse, conflate.
pub fn pass(body: &Vec<Statement>) -> (out: Vec<Statement>)
    ensures
        steps(out@) == passed(steps(body@)),
{
    let whole: Vec<Statement> = fuse(body);
    let ghost all = conflated_steps(steps(whole@));
    let mut out: Vec<Statement> = Vec::new();
    let mut i: usize = 0;
    assert(steps(out@) =~= all.take(0));
    while i < whole.len()
        invariant
            i <= whole@.len(),
            all == conflated_steps(steps(whole@)),
            steps(out@) == all.take(i as int),
        decreases whole@.len() - i,
    {
        let ghost before = out@;
        match &whole[i] {
            Statement::Opaque(id) => {
                out.push(Statement::Opaque(*id));
            },
            Statement::Expression(items) => {
                out.push(Statement::Expression(conflate(items)));
            },
        }
        assert(steps(out@) =~= steps(before).push(all[i as int]));
        assert(all.take(i + 1) =~= all.take(i as int).push(all[i as int]));
        i = i + 1;
    }
    assert(all.take(all.len() as int) =~= all);
    out
}

/// Are the two bodies written alike?
pub fn is_same_body(a: &Vec<Statement>, b: &Vec<Statement>) -> (same: bool)
    ensures
        same == (steps(a@) == steps(b@)),
{
    if a.len() != b.len() {
        assert(steps(a@).len() != steps(b@).len());
        return false;
    }
    let mut i: usize = 0;
    while i < a.len()
        invariant
            i <= a@.len() == b@.len(),
            forall|k: int| 0 <= k < i ==> steps(a@)[k] == steps(b@)[k],
        decreases a@.len() - i,
    {
        let same: bool = match (&a[i], &b[i]) {
            (Statement::Opaque(x), Statement::Opaque(y)) => *x == *y,
            (Statement::Expression(x), Statement::Expression(y)) => same_items(x, y),
            _ => false,
        };
        if !same {
            assert(steps(a@)[i as int] != steps(b@)[i as int]);
            return false;
        }
        i = i + 1;
    }
    assert(steps(a@) =~= steps(b@));
    true
}

/// Are the items written alike?
fn same_items(a: &Vec<Item>, b: &Vec<Item>) -> (same: bool)
    ensures
        same == (actions(a@) == actions(b@)),
{
    if a.len() != b.len() {
        assert(actions(a@).len() != actions(b@).len());
        return false;
    }
    let mut i: usize = 0;
    while i < a.len()
        invariant
            i <= a@.len() == b@.len(),
            forall|k: int| 0 <= k < i ==> actions(a@)[k] == actions(b@)[k],
        decreases a@.len() - i,
    {
        if !a[i].is_same(&b[i]) {
            assert(actions(a@)[i as int] != actions(b@)[i as int]);
            return false;
        }
        i = i + 1;
    }
    assert(actions(a@) =~= actions(b@));
    true
}

} // verus!
