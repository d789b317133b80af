//! The abstract state at one program point: register contents, a model of the
//! current stack frame, and the usage flags of the parameter ids.

use vstd::prelude::*;
use crate::domain::{
    AbstractId, call_return_id, Location, Value, ValueView, ids_of, join, lemma_join_associative,
    lemma_join_commutative, lemma_join_idempotent, lemma_join_upper_bound, shift, top_view,
    value_le,
};
use crate::ir::{
    Arg, CallingConvention, Datatype, Expression, Variable, expr_vars, parameter_args_of,
    parameter_registers_of, return_registers_of,
};

verus! {

/// How a recorded id has been used so far.
#[derive(Clone, Copy, Debug, PartialEq, Eq, Structural)]
pub struct AccessPattern {
    pub read: bool,
    pub dereferenced: bool,
    pub mutably_dereferenced: bool,
}

/// One of the three usage flags.
#[derive(Clone, Copy, Debug, PartialEq, Eq, Structural)]
pub enum AccessFlag {
    Read,
    Deref,
    MutDeref,
}

pub open spec fn has_flag(a: AccessPattern, f: AccessFlag) -> bool {
    match f {
        AccessFlag::Read => a.read,
        AccessFlag::Deref => a.dereferenced,
        AccessFlag::MutDeref => a.mutably_dereferenced,
    }
}

impl AccessPattern {
    /// The pattern with one more flag set.
    pub fn with_flag(self, f: AccessFlag) -> (r: AccessPattern)
        ensures
            forall|g: AccessFlag| has_flag(r, g) == (has_flag(self, g) || g == f),
    {
        match f {
            AccessFlag::Read => AccessPattern { read: true, ..self },
            AccessFlag::Deref => AccessPattern { dereferenced: true, ..self },
            AccessFlag::MutDeref => AccessPattern { mutably_dereferenced: true, ..self },
        }
    }

    /// The flags of either pattern.
    pub fn merge(self, other: AccessPattern) -> (r: AccessPattern)
        ensures
            forall|g: AccessFlag| has_flag(r, g) == (has_flag(self, g) || has_flag(other, g)),
    {
        AccessPattern {
            read: self.read || other.read,
            dereferenced: self.dereferenced || other.dereferenced,
            mutably_dereferenced: self.mutably_dereferenced || other.mutably_dereferenced,
        }
    }
}

/// The abstract state of one program point of a function.
#[derive(Debug)]
pub struct State {
    /// The content of register `i`, where known; `None` stands for an unknown value.
    pub registers: Vec<Option<Value>>,
    /// Stack slots by offset; a later entry for an offset hides an earlier one.
    pub stack: Vec<(i64, Value)>,
    /// The parameter ids of the function and how they were used.
    pub params: Vec<(AbstractId, AccessPattern)>,
    /// The id of the stack pointer at function entry; its term id is the function's.
    pub stack_id: AbstractId,
}

pub open spec fn opt_view(v: Option<Value>) -> Option<ValueView> {
    match v {
        Some(x) => Some(x@),
        None => None,
    }
}

/// What the state records for register `r`.
pub open spec fn reg_of(s: State, r: usize) -> Option<ValueView> {
    if r < s.registers@.len() {
        opt_view(s.registers@[r as int])
    } else {
        None
    }
}

/// The value of register `r`: unknown where nothing is recorded.
pub open spec fn reg_value(s: State, r: usize) -> ValueView {
    match reg_of(s, r) {
        Some(v) => v,
        None => top_view(),
    }
}

/// What the stack entries record at `offset`: the last entry for it wins.
pub open spec fn slot_lookup(entries: Seq<(i64, Value)>, offset: i64) -> Option<ValueView>
    decreases entries.len(),
{
    if entries.len() == 0 {
        None
    } else if entries.last().0 == offset {
        Some(entries.last().1@)
    } else {
        slot_lookup(entries.drop_last(), offset)
    }
}

pub open spec fn stack_of(s: State, offset: i64) -> Option<ValueView> {
    slot_lookup(s.stack@, offset)
}

/// The ids that a list of usage entries names.
pub open spec fn entry_ids(e: Seq<(AbstractId, AccessPattern)>) -> Set<AbstractId> {
    Set::new(|id: AbstractId| exists|i: int| 0 <= i < e.len() && e[i].0 == id)
}

/// The ids that some entry of the list names with flag `f` set.
pub open spec fn entry_flagged(e: Seq<(AbstractId, AccessPattern)>, f: AccessFlag) -> Set<
    AbstractId,
> {
    Set::new(
        |id: AbstractId| exists|i: int| 0 <= i < e.len() && e[i].0 == id && has_flag(e[i].1, f),
    )
}

/// The ids that the state keeps as parameters of its function.
pub open spec fn param_ids(s: State) -> Set<AbstractId> {
    entry_ids(s.params@)
}

/// Every parameter id of the state belongs to its function: it carries the
/// term id of the function, which the stack id carries too.
pub open spec fn wf(s: State) -> bool {
    forall|id: AbstractId| #[trigger] param_ids(s).contains(id) ==> id.tid == s.stack_id.tid
}

/// The parameter ids that carry flag `f`.
pub open spec fn flagged(s: State, f: AccessFlag) -> Set<AbstractId> {
    entry_flagged(s.params@, f)
}

/// The abstract value of an expression.
pub open spec fn eval_spec(s: State, e: Expression) -> ValueView
    decreases e,
{
    match e {
        Expression::Var(v) => reg_value(s, v.id),
        Expression::Const(c) => ValueView {
            relative: Set::empty(),
            absolute: set![c],
            contains_top: false,
        },
        Expression::PlusConst(inner, c) => shift(eval_spec(s, *inner), c),
        Expression::BinOp(_, _) => top_view(),
    }
}

/// The ids that occur in the values of the registers an expression reads.
pub open spec fn expr_ids(s: State, e: Expression) -> Set<AbstractId>
    decreases e,
{
    match e {
        Expression::Var(v) => ids_of(reg_value(s, v.id)),
        Expression::Const(_) => Set::empty(),
        Expression::PlusConst(inner, _) => expr_ids(s, *inner),
        Expression::BinOp(a, b) => expr_ids(s, *a).union(expr_ids(s, *b)),
    }
}

/// The value that a load from `address` yields.
pub open spec fn load_spec(s: State, address: ValueView) -> ValueView {
    match exact_stack_offset(s, address) {
        Some(o) => match stack_of(s, o) {
            Some(v) => v,
            None => top_view(),
        },
        None => top_view(),
    }
}

/// Registers and stack are unchanged, and the same ids are recorded.
pub open spec fn same_values(a: State, b: State) -> bool {
    a.registers@ == b.registers@ && a.stack@ == b.stack@ && a.stack_id == b.stack_id
        && param_ids(a) == param_ids(b)
}

/// `b` is `a` with flag `f` set on the parameter ids among `ids`.
pub open spec fn flags_added(a: State, b: State, f: AccessFlag, ids: Set<AbstractId>) -> bool {
    &&& same_values(a, b)
    &&& flagged(b, f) == flagged(a, f).union(param_ids(a).intersect(ids))
    &&& forall|g: AccessFlag| g != f ==> flagged(b, g) == flagged(a, g)
}

/// The offset from the stack pointer at function entry, where the value is exactly such an address.
pub open spec fn exact_stack_offset(s: State, v: ValueView) -> Option<i64> {
    if v.absolute.is_empty() && !v.contains_top && exists|o: i64|
        v.relative == set![(s.stack_id, o)] {
        Some(choose|o: i64| v.relative == set![(s.stack_id, o)])
    } else {
        None
    }
}

/// Setting a flag for one set of ids and then for another sets it for their union.
pub proof fn lemma_flags_added_compose(
    s0: State,
    s1: State,
    s2: State,
    f: AccessFlag,
    a: Set<AbstractId>,
    b: Set<AbstractId>,
)
    requires
        flags_added(s0, s1, f, a),
        flags_added(s1, s2, f, b),
    ensures
        flags_added(s0, s2, f, a.union(b)),
{
    assert(flagged(s2, f) =~= flagged(s0, f).union(param_ids(s0).intersect(a.union(b))));
}

/// A state with nothing changed adds no flag.
pub proof fn lemma_flags_added_none(s: State, f: AccessFlag)
    ensures
        flags_added(s, s, f, Set::empty()),
{
    assert(flagged(s, f) =~= flagged(s, f).union(param_ids(s).intersect(Set::empty())));
}

impl State {
    /// The value of a register.
    pub fn get_register(&self, var: &Variable) -> (r: Value)
        ensures
            r@ == reg_value(*self, var.id),
    {
        if var.id < self.registers.len() {
            match &self.registers[var.id] {
                Some(v) => v.duplicate(),
                None => Value::new_top(),
            }
        } else {
            Value::new_top()
        }
    }

    /// Records the value of a register.
    pub fn set_register(&mut self, var: &Variable, value: Value)
        ensures
            reg_of(*final(self), var.id) == Some(value@),
            forall|r: usize| r != var.id ==> reg_of(*final(self), r) == reg_of(*old(self), r),
            final(self).stack@ == old(self).stack@,
            final(self).params@ == old(self).params@,
            final(self).stack_id == old(self).stack_id,
    {
        while self.registers.len() <= var.id
            invariant
                forall|r: usize| reg_of(*self, r) == reg_of(*old(self), r),
                self.stack@ == old(self).stack@,
                self.params@ == old(self).params@,
                self.stack_id == old(self).stack_id,
            decreases var.id + 1 - self.registers@.len(),
        {
            self.registers.push(None);
        }
        self.registers.set(var.id, Some(value));
    }

    /// The abstract value of an expression.
    pub fn eval(&self, e: &Expression) -> (r: Value)
        ensures
            r@ == eval_spec(*self, *e),
        decreases e,
    {
        match e {
            Expression::Var(v) => self.get_register(v),
            Expression::Const(c) => {
                let r = Value::from_absolute(*c);
                r
            },
            Expression::PlusConst(inner, c) => {
                let v = self.eval(inner);
                v.add_offset(*c)
            },
            Expression::BinOp(_, _) => Value::new_top(),
        }
    }

    /// Sets flag `f` on every parameter id that occurs in `value`.
    pub fn set_flag_for_ids_of_value(&mut self, value: &Value, f: AccessFlag)
        ensures
            flags_added(*old(self), *final(self), f, ids_of(value@)),
            forall|i: int|
                0 <= i < final(self).params@.len() ==> #[trigger] final(self).params@[i].0
                    == old(self).params@[i].0,
            final(self).params@.len() == old(self).params@.len(),
    {
        let ghost start = self.params@;
        let mut i: usize = 0;
        while i < self.params.len()
            invariant
                i <= self.params@.len(),
                self.params@.len() == start.len(),
                self.registers@ == old(self).registers@,
                self.stack@ == old(self).stack@,
                self.stack_id == old(self).stack_id,
                start == old(self).params@,
                forall|k: int|
                    0 <= k < start.len() ==> #[trigger] self.params@[k].0 == start[k].0,
                forall|k: int, g: AccessFlag|
                    0 <= k < start.len() ==> #[trigger] has_flag(self.params@[k].1, g) == (
                    has_flag(start[k].1, g) || (g == f && k < i && ids_of(value@).contains(
                        start[k].0,
                    ))),
            decreases start.len() - i,
        {
            let (id, access) = self.params[i];
            if value.refers_to(id) {
                self.params.set(i, (id, access.with_flag(f)));
            }
            i = i + 1;
        }
        proof {
            let s0 = *old(self);
            let s1 = *self;
            assert(param_ids(s1) =~= param_ids(s0)) by {
                assert forall|id: AbstractId| param_ids(s1).contains(id) implies param_ids(
                    s0,
                ).contains(id) by {
                    let k = choose|k: int| 0 <= k < s1.params@.len() && s1.params@[k].0 == id;
                    assert(s0.params@[k].0 == id);
                }
                assert forall|id: AbstractId| param_ids(s0).contains(id) implies param_ids(
                    s1,
                ).contains(id) by {
                    let k = choose|k: int| 0 <= k < s0.params@.len() && s0.params@[k].0 == id;
                    assert(s1.params@[k].0 == id);
                }
            }
            assert forall|g: AccessFlag| #[trigger]
                flagged(s1, g) == (if g == f {
                    flagged(s0, g).union(param_ids(s0).intersect(ids_of(value@)))
                } else {
                    flagged(s0, g)
                }) by {
                let rhs = if g == f {
                    flagged(s0, g).union(param_ids(s0).intersect(ids_of(value@)))
                } else {
                    flagged(s0, g)
                };
                assert forall|id: AbstractId| flagged(s1, g).contains(id) implies rhs.contains(
                    id,
                ) by {
                    let k = choose|k: int|
                        0 <= k < s1.params@.len() && s1.params@[k].0 == id && has_flag(
                            s1.params@[k].1,
                            g,
                        );
                    assert(has_flag(s1.params@[k].1, g));
                    if !has_flag(s0.params@[k].1, g) {
                        assert(param_ids(s0).contains(id));
                    }
                }
                assert forall|id: AbstractId| rhs.contains(id) implies flagged(s1, g).contains(
                    id,
                ) by {
                    if flagged(s0, g).contains(id) {
                        let k = choose|k: int|
                            0 <= k < s0.params@.len() && s0.params@[k].0 == id && has_flag(
                                s0.params@[k].1,
                                g,
                            );
                        assert(has_flag(s1.params@[k].1, g));
                    } else {
                        let k = choose|k: int|
                            0 <= k < s0.params@.len() && s0.params@[k].0 == id;
                        assert(has_flag(s1.params@[k].1, g));
                    }
                }
                assert(flagged(s1, g) =~= rhs);
            }
        }
    }

    /// Sets flag `f` on the parameter ids in the values of the registers that `e` reads.
    pub fn set_flag_for_input_ids_of_expression(&mut self, e: &Expression, f: AccessFlag)
        ensures
            flags_added(*old(self), *final(self), f, expr_ids(*old(self), *e)),
        decreases e,
    {
        match e {
            Expression::Var(v) => {
                let value = self.get_register(v);
                self.set_flag_for_ids_of_value(&value, f);
            },
            Expression::Const(_) => {
                proof {
                    lemma_flags_added_none(*self, f);
                }
            },
            Expression::PlusConst(inner, _) => {
                self.set_flag_for_input_ids_of_expression(inner, f);
            },
            Expression::BinOp(a, b) => {
                let ghost s0 = *self;
                self.set_flag_for_input_ids_of_expression(a, f);
                let ghost s1 = *self;
                self.set_flag_for_input_ids_of_expression(b, f);
                proof {
                    lemma_expr_ids_same_values(s0, s1, **b);
                    lemma_flags_added_compose(
                        s0,
                        s1,
                        *self,
                        f,
                        expr_ids(s0, **a),
                        expr_ids(s0, **b),
                    );
                }
            },
        }
    }

    /// Sets the read flag on the ids that `e` reads, unless `e` is a bare
    /// register: copying a register alone (as when a callee saves it) is no use.
    pub fn set_read_flag_for_input_ids_of_nontrivial_expression(&mut self, e: &Expression)
        ensures
            flags_added(
                *old(self),
                *final(self),
                AccessFlag::Read,
                if e is Var {
                    Set::empty()
                } else {
                    expr_ids(*old(self), *e)
                },
            ),
    {
        match e {
            Expression::Var(_) => {
                proof {
                    lemma_flags_added_none(*self, AccessFlag::Read);
                }
            },
            _ => self.set_flag_for_input_ids_of_expression(e, AccessFlag::Read),
        }
    }

    /// The offset from the stack pointer at function entry, where `v` is exactly such an address.
    pub fn get_offset_if_exact_stack_pointer(&self, v: &Value) -> (r: Option<i64>)
        ensures
            r == exact_stack_offset(*self, v@),
    {
        if v.contains_top || v.absolute.len() != 0 || v.relative.len() == 0 {
            proof {
                if v.absolute.len() != 0 {
                    assert(v@.absolute.contains(v.absolute@[0]));
                }
                if v.relative.len() == 0 {
                    assert forall|o: i64| v@.relative != set![(self.stack_id, o)] by {
                        assert(set![(self.stack_id, o)].contains((self.stack_id, o)));
                    }
                }
            }
            return None;
        }
        let (id, o) = v.relative[0];
        let mut i: usize = 1;
        while i < v.relative.len()
            invariant
                1 <= i <= v.relative@.len(),
                v.relative@[0] == (id, o),
                forall|k: int| 0 <= k < i ==> v.relative@[k] == (id, o),
            decreases v.relative@.len() - i,
        {
            let q = v.relative[i];
            if !(q.0 == id && q.1 == o) {
                proof {
                    assert forall|x: i64| v@.relative != set![(self.stack_id, x)] by {
                        assert(v@.relative.contains((id, o)));
                        assert(v@.relative.contains(q));
                    }
                }
                return None;
            }
            i = i + 1;
        }
        assert(v@.relative =~= set![(id, o)]);
        if id == self.stack_id {
            assert(v@.relative == set![(self.stack_id, o)]);
            assert(v@.absolute =~= Set::empty());
            let ghost c = choose|x: i64| v@.relative == set![(self.stack_id, x)];
            assert(set![(self.stack_id, c)].contains((id, o)));
            Some(o)
        } else {
            proof {
                assert forall|x: i64| v@.relative != set![(self.stack_id, x)] by {
                    assert(v@.relative.contains((id, o)));
                }
            }
            None
        }
    }

    /// The value recorded in the stack slot at `offset`.
    pub fn get_stack_slot(&self, offset: i64) -> (r: Option<Value>)
        ensures
            opt_view(r) == stack_of(*self, offset),
    {
        let mut i: usize = self.stack.len();
        assert(self.stack@.take(i as int) =~= self.stack@);
        while i > 0
            invariant
                i <= self.stack@.len(),
                slot_lookup(self.stack@, offset) == slot_lookup(self.stack@.take(i as int), offset),
            decreases i,
        {
            assert(self.stack@.take(i as int).drop_last() =~= self.stack@.take(i - 1));
            if self.stack[i - 1].0 == offset {
                return Some(self.stack[i - 1].1.duplicate());
            }
            i = i - 1;
        }
        None
    }

    /// The value that a load from `address` yields: the stack slot where the
    /// address is exactly one, else an unknown value.
    pub fn load_value(&self, address: &Value) -> (r: Value)
        ensures
            r@ == load_spec(*self, address@),
    {
        match self.get_offset_if_exact_stack_pointer(address) {
            Some(o) => match self.get_stack_slot(o) {
                Some(v) => v,
                None => Value::new_top(),
            },
            None => Value::new_top(),
        }
    }

    /// Stores `value` at `address`. A store to an exact stack slot replaces
    /// it; a store that may reach the stack anywhere else forgets the whole
    /// frame; other stores change nothing that the state models.
    pub fn write_value(&mut self, address: &Value, value: Value)
        ensures
            final(self).registers@ == old(self).registers@,
            final(self).params@ == old(self).params@,
            final(self).stack_id == old(self).stack_id,
            exact_stack_offset(*old(self), address@) matches Some(o) ==> (stack_of(*final(self), o)
                == Some(value@) && forall|k: i64|
                k != o ==> stack_of(*final(self), k) == stack_of(*old(self), k)),
            exact_stack_offset(*old(self), address@) is None ==> (if ids_of(address@).contains(
                old(self).stack_id,
            ) {
                forall|k: i64| stack_of(*final(self), k) is None
            } else {
                final(self).stack@ == old(self).stack@
            }),
    {
        match self.get_offset_if_exact_stack_pointer(address) {
            Some(o) => {
                let ghost before = self.stack@;
                self.stack.push((o, value));
                assert(self.stack@.drop_last() =~= before);
            },
            None => {
                if address.refers_to(self.stack_id) {
                    self.stack = Vec::new();
                }
            },
        }
    }
}

/// The ids an expression reads depend on the registers alone.
pub proof fn lemma_expr_ids_same_values(a: State, b: State, e: Expression)
    requires
        forall|r: usize| #[trigger] reg_of(a, r) == reg_of(b, r),
    ensures
        expr_ids(a, e) == expr_ids(b, e),
    decreases e,
{
    match e {
        Expression::Var(v) => {
            assert(reg_value(a, v.id) == reg_value(b, v.id));
        },
        Expression::Const(_) => {},
        Expression::PlusConst(inner, _) => {
            lemma_expr_ids_same_values(a, b, *inner);
        },
        Expression::BinOp(x, y) => {
            lemma_expr_ids_same_values(a, b, *x);
            lemma_expr_ids_same_values(a, b, *y);
        },
    }
}


/// Both sides recorded, joined; else nothing recorded.
pub open spec fn opt_join(a: Option<ValueView>, b: Option<ValueView>) -> Option<ValueView> {
    match (a, b) {
        (Some(x), Some(y)) => Some(join(x, y)),
        _ => None,
    }
}

/// `m` is the join of the states `a` and `b`: registers and stack slots known
/// on both sides are joined, the others become unknown; parameter ids and
/// their flags are united.
pub open spec fn merged(a: State, b: State, m: State) -> bool {
    &&& m.stack_id == a.stack_id
    &&& forall|r: usize| #[trigger] reg_of(m, r) == opt_join(reg_of(a, r), reg_of(b, r))
    &&& forall|k: i64| #[trigger] stack_of(m, k) == opt_join(stack_of(a, k), stack_of(b, k))
    &&& param_ids(m) == param_ids(a).union(param_ids(b))
    &&& forall|f: AccessFlag| #[trigger] flagged(m, f) == flagged(a, f).union(flagged(b, f))
}

fn has_entry(e: &Vec<(AbstractId, AccessPattern)>, id: AbstractId) -> (r: bool)
    ensures
        r == entry_ids(e@).contains(id),
{
    let mut i: usize = 0;
    while i < e.len()
        invariant
            i <= e@.len(),
            forall|k: int| 0 <= k < i ==> e@[k].0 != id,
        decreases e@.len() - i,
    {
        if e[i].0 == id {
            return true;
        }
        i = i + 1;
    }
    false
}

/// `start` with the flags of every entry for `id` added.
fn collect_flags(e: &Vec<(AbstractId, AccessPattern)>, id: AbstractId, start: AccessPattern) -> (r:
    AccessPattern)
    ensures
        forall|g: AccessFlag|
            #[trigger] has_flag(r, g) == (has_flag(start, g) || entry_flagged(e@, g).contains(id)),
{
    let mut acc = start;
    let mut i: usize = 0;
    while i < e.len()
        invariant
            i <= e@.len(),
            forall|g: AccessFlag|
                #[trigger] has_flag(acc, g) == (has_flag(start, g) || exists|k: int|
                    0 <= k < i && e@[k].0 == id && has_flag(e@[k].1, g)),
        decreases e@.len() - i,
    {
        let ghost prev = acc;
        if e[i].0 == id {
            acc = acc.merge(e[i].1);
        }
        proof {
            assert forall|g: AccessFlag|
                #[trigger] has_flag(acc, g) == (has_flag(start, g) || exists|k: int|
                    0 <= k < i + 1 && e@[k].0 == id && has_flag(e@[k].1, g)) by {
                if exists|k: int| 0 <= k < i + 1 && e@[k].0 == id && has_flag(e@[k].1, g) {
                    let k = choose|k: int| 0 <= k < i + 1 && e@[k].0 == id && has_flag(e@[k].1, g);
                    if k < i {
                        assert(has_flag(prev, g));
                    }
                }
                if has_flag(prev, g) && !has_flag(start, g) {
                    let k = choose|k: int| 0 <= k < i && e@[k].0 == id && has_flag(e@[k].1, g);
                    assert(0 <= k < i + 1 && e@[k].0 == id && has_flag(e@[k].1, g));
                }
            }
        }
        i = i + 1;
    }
    acc
}

impl State {
    /// The join of two states of the same function.
    pub fn merge(&self, other: &State) -> (r: State)
        requires
            self.stack_id == other.stack_id,
        ensures
            merged(*self, *other, r),
    {
        // registers
        let mut registers: Vec<Option<Value>> = Vec::new();
        let mut i: usize = 0;
        while i < self.registers.len() && i < other.registers.len()
            invariant
                i <= self.registers@.len(),
                i <= other.registers@.len(),
                registers@.len() == i,
                forall|k: int|
                    0 <= k < i ==> opt_view(#[trigger] registers@[k]) == opt_join(
                        opt_view(self.registers@[k]),
                        opt_view(other.registers@[k]),
                    ),
            decreases self.registers@.len() - i,
        {
            let v = match (&self.registers[i], &other.registers[i]) {
                (Some(x), Some(y)) => Some(x.merge(y)),
                _ => None,
            };
            registers.push(v);
            i = i + 1;
        }
        // stack
        let mut stack: Vec<(i64, Value)> = Vec::new();
        let mut j: usize = 0;
        assert(self.stack@.take(0) =~= Seq::<(i64, Value)>::empty());
        while j < self.stack.len()
            invariant
                j <= self.stack@.len(),
                forall|k: i64|
                    #[trigger] slot_lookup(stack@, k) == opt_join(
                        slot_lookup(self.stack@.take(j as int), k),
                        stack_of(*other, k),
                    ),
            decreases self.stack@.len() - j,
        {
            let offset = self.stack[j].0;
            let ghost before = stack@;
            match other.get_stack_slot(offset) {
                Some(w) => {
                    stack.push((offset, self.stack[j].1.merge(&w)));
                    assert(stack@.drop_last() =~= before);
                },
                None => {},
            }
            proof {
                let t = self.stack@.take(j + 1);
                assert(t.drop_last() =~= self.stack@.take(j as int));
                assert(t.last() == self.stack@[j as int]);
                assert forall|k: i64|
                    #[trigger] slot_lookup(stack@, k) == opt_join(
                        slot_lookup(t, k),
                        stack_of(*other, k),
                    ) by {
                    assert(slot_lookup(t, k) == if t.last().0 == k {
                        Some(t.last().1@)
                    } else {
                        slot_lookup(t.drop_last(), k)
                    });
                    if stack@.len() > before.len() {
                        assert(slot_lookup(stack@, k) == if stack@.last().0 == k {
                            Some(stack@.last().1@)
                        } else {
                            slot_lookup(stack@.drop_last(), k)
                        });
                    }
                }
            }
            j = j + 1;
        }
        assert(self.stack@.take(j as int) =~= self.stack@);
        // parameter ids
        let mut params: Vec<(AbstractId, AccessPattern)> = Vec::new();
        let mut p: usize = 0;
        while p < self.params.len()
            invariant
                p <= self.params@.len(),
                params@.len() == p,
                forall|k: int| 0 <= k < p ==> #[trigger] params@[k].0 == self.params@[k].0,
                forall|k: int, g: AccessFlag|
                    0 <= k < p ==> #[trigger] has_flag(params@[k].1, g) == (has_flag(
                        self.params@[k].1,
                        g,
                    ) || entry_flagged(other.params@, g).contains(self.params@[k].0)),
            decreases self.params@.len() - p,
        {
            let (id, access) = self.params[p];
            let acc = collect_flags(&other.params, id, access);
            params.push((id, acc));
            p = p + 1;
        }
        let ghost first = params@;
        assert(entry_ids(first) =~= entry_ids(self.params@)) by {
            assert forall|id: AbstractId| entry_ids(self.params@).contains(id) implies entry_ids(
                first,
            ).contains(id) by {
                let k = choose|k: int| 0 <= k < self.params@.len() && self.params@[k].0 == id;
                assert(first[k].0 == id);
            }
        }
        assert forall|g: AccessFlag| #[trigger]
            entry_flagged(first, g) == entry_flagged(self.params@, g).union(
                entry_flagged(other.params@, g).intersect(entry_ids(self.params@)),
            ) by {
            let rhs = entry_flagged(self.params@, g).union(
                entry_flagged(other.params@, g).intersect(entry_ids(self.params@)),
            );
            assert forall|id: AbstractId| entry_flagged(first, g).contains(id) implies rhs.contains(
                id,
            ) by {
                let k = choose|k: int| 0 <= k < first.len() && first[k].0 == id && has_flag(first[k].1, g);
                assert(has_flag(first[k].1, g));
                assert(self.params@[k].0 == id);
            }
            assert forall|id: AbstractId| rhs.contains(id) implies entry_flagged(first, g).contains(
                id,
            ) by {
                if entry_flagged(self.params@, g).contains(id) {
                    let k = choose|k: int|
                        0 <= k < self.params@.len() && self.params@[k].0 == id && has_flag(
                            self.params@[k].1,
                            g,
                        );
                    assert(has_flag(first[k].1, g));
                } else {
                    let k = choose|k: int| 0 <= k < self.params@.len() && self.params@[k].0 == id;
                    assert(has_flag(first[k].1, g));
                }
            }
            assert(entry_flagged(first, g) =~= rhs);
        }
        let mut q: usize = 0;
        while q < other.params.len()
            invariant
                q <= other.params@.len(),
                params@.len() >= first.len(),
                params@.take(first.len() as int) == first,
                entry_ids(params@) == entry_ids(self.params@).union(
                    Set::new(|id: AbstractId| exists|k: int| 0 <= k < q && other.params@[k].0 == id),
                ),
                forall|g: AccessFlag| #[trigger]
                    entry_flagged(params@, g) == entry_flagged(first, g).union(
                        Set::new(
                            |id: AbstractId|
                                exists|k: int|
                                    0 <= k < q && other.params@[k].0 == id && has_flag(
                                        other.params@[k].1,
                                        g,
                                    ) && !entry_ids(self.params@).contains(id),
                        ),
                    ),
            decreases other.params@.len() - q,
        {
            let (id, access) = other.params[q];
            let ghost before = params@;
            if !has_entry(&self.params, id) {
                params.push((id, access));
            }
            proof {
                let n = before.len();
                if params@.len() > n {
                    assert(params@.take(first.len() as int) =~= before.take(first.len() as int));
                    assert(params@[n as int] == (id, access));
                }
                assert forall|x: AbstractId| #[trigger] entry_ids(params@).contains(x)
                    == (entry_ids(self.params@).contains(x) || exists|k: int|
                    0 <= k < q + 1 && other.params@[k].0 == x) by {
                    if entry_ids(params@).contains(x) {
                        let k = choose|k: int| 0 <= k < params@.len() && params@[k].0 == x;
                        if k < n {
                            assert(entry_ids(before).contains(x));
                            if !entry_ids(self.params@).contains(x) {
                                let k2 = choose|k2: int| 0 <= k2 < q && other.params@[k2].0 == x;
                                assert(0 <= k2 < q + 1 && other.params@[k2].0 == x);
                            }
                        } else {
                            assert(other.params@[q as int].0 == x);
                        }
                    }
                    if exists|k: int| 0 <= k < q + 1 && other.params@[k].0 == x {
                        let k = choose|k: int| 0 <= k < q + 1 && other.params@[k].0 == x;
                        if k < q {
                            assert(exists|k: int| 0 <= k < q && other.params@[k].0 == x);
                            assert(entry_ids(before).contains(x));
                            let k3 = choose|k3: int| 0 <= k3 < before.len() && before[k3].0 == x;
                            assert(params@[k3] == before[k3]);
                        } else if !entry_ids(self.params@).contains(x) {
                            assert(params@[n as int].0 == x);
                        }
                    }
                    if entry_ids(self.params@).contains(x) {
                        assert(entry_ids(before).contains(x));
                        let k3 = choose|k3: int| 0 <= k3 < before.len() && before[k3].0 == x;
                        assert(params@[k3] == before[k3]);
                    }
                }
                assert(entry_ids(params@) =~= entry_ids(self.params@).union(
                    Set::new(|x: AbstractId| exists|k: int| 0 <= k < q + 1 && other.params@[k].0 == x),
                ));
                assert forall|g: AccessFlag| #[trigger]
                    entry_flagged(params@, g) == entry_flagged(first, g).union(
                        Set::new(
                            |x: AbstractId|
                                exists|k: int|
                                    0 <= k < q + 1 && other.params@[k].0 == x && has_flag(
                                        other.params@[k].1,
                                        g,
                                    ) && !entry_ids(self.params@).contains(x),
                        ),
                    ) by {
                    let old_extra = Set::new(
                        |x: AbstractId|
                            exists|k: int|
                                0 <= k < q && other.params@[k].0 == x && has_flag(
                                    other.params@[k].1,
                                    g,
                                ) && !entry_ids(self.params@).contains(x),
                    );
                    let new_extra = Set::new(
                        |x: AbstractId|
                            exists|k: int|
                                0 <= k < q + 1 && other.params@[k].0 == x && has_flag(
                                    other.params@[k].1,
                                    g,
                                ) && !entry_ids(self.params@).contains(x),
                    );
                    assert(entry_flagged(before, g) == entry_flagged(first, g).union(old_extra));
                    assert forall|x: AbstractId| #[trigger] entry_flagged(params@, g).contains(x)
                        == (entry_flagged(first, g).contains(x) || new_extra.contains(x)) by {
                        if entry_flagged(params@, g).contains(x) {
                            let k = choose|k: int|
                                0 <= k < params@.len() && params@[k].0 == x && has_flag(params@[k].1, g);
                            if k < n {
                                assert(entry_flagged(before, g).contains(x));
                                if old_extra.contains(x) {
                                    let k2 = choose|k2: int|
                                        0 <= k2 < q && other.params@[k2].0 == x && has_flag(
                                            other.params@[k2].1,
                                            g,
                                        ) && !entry_ids(self.params@).contains(x);
                                    assert(0 <= k2 < q + 1);
                                }
                            } else {
                                assert(other.params@[q as int].0 == x);
                            }
                        }
                        if entry_flagged(first, g).contains(x) || old_extra.contains(x) {
                            assert(entry_flagged(before, g).contains(x));
                            let k3 = choose|k3: int|
                                0 <= k3 < before.len() && before[k3].0 == x && has_flag(before[k3].1, g);
                            assert(params@[k3] == before[k3]);
                        }
                        if new_extra.contains(x) {
                            let k = choose|k: int|
                                0 <= k < q + 1 && other.params@[k].0 == x && has_flag(
                                    other.params@[k].1,
                                    g,
                                ) && !entry_ids(self.params@).contains(x);
                            if k < q {
                                assert(old_extra.contains(x));
                                assert(entry_flagged(before, g).contains(x));
                                let k3 = choose|k3: int|
                                    0 <= k3 < before.len() && before[k3].0 == x && has_flag(
                                        before[k3].1,
                                        g,
                                    );
                                assert(params@[k3] == before[k3]);
                            } else {
                                assert(params@[n as int].0 == x);
                            }
                        }
                    }
                    assert(entry_flagged(params@, g) =~= entry_flagged(first, g).union(new_extra));
                }
            }
            q = q + 1;
        }
        let r = State { registers, stack, params, stack_id: self.stack_id };
        proof {
            assert forall|x: AbstractId|
                #[trigger] entry_ids(other.params@).contains(x) == (exists|k: int|
                    0 <= k < q && other.params@[k].0 == x) by {}
            assert(param_ids(r) =~= param_ids(*self).union(param_ids(*other)));
            assert forall|g: AccessFlag| #[trigger]
                flagged(r, g) == flagged(*self, g).union(flagged(*other, g)) by {
                assert forall|x: AbstractId| #[trigger] flagged(r, g).contains(x)
                    == (flagged(*self, g).contains(x) || flagged(*other, g).contains(x)) by {
                    if flagged(*other, g).contains(x) && !entry_ids(self.params@).contains(x) {
                        let k = choose|k: int|
                            0 <= k < other.params@.len() && other.params@[k].0 == x && has_flag(
                                other.params@[k].1,
                                g,
                            );
                        assert(0 <= k < q);
                    }
                }
                assert(flagged(r, g) =~= flagged(*self, g).union(flagged(*other, g)));
            }
            assert forall|reg: usize| #[trigger] reg_of(r, reg) == opt_join(reg_of(*self, reg), reg_of(*other, reg)) by {
                if reg < registers@.len() {
                    assert(opt_view(registers@[reg as int]) == opt_join(
                        opt_view(self.registers@[reg as int]),
                        opt_view(other.registers@[reg as int]),
                    ));
                }
            }
        }
        r
    }
}


/// The two states record the same information.
pub open spec fn equivalent(a: State, b: State) -> bool {
    &&& a.stack_id == b.stack_id
    &&& forall|r: usize| #[trigger] reg_of(a, r) == reg_of(b, r)
    &&& forall|k: i64| #[trigger] stack_of(a, k) == stack_of(b, k)
    &&& param_ids(a) == param_ids(b)
    &&& forall|f: AccessFlag| #[trigger] flagged(a, f) == flagged(b, f)
}

/// `b` admits everything that `a` admits: each register or slot that `b`
/// still records is recorded by `a` with no more content, and `b` keeps all
/// ids and flags of `a`.
pub open spec fn state_le(a: State, b: State) -> bool {
    &&& forall|r: usize| #[trigger]
        reg_of(b, r) is Some ==> reg_of(a, r) is Some && value_le(
            reg_of(a, r)->Some_0,
            reg_of(b, r)->Some_0,
        )
    &&& forall|k: i64| #[trigger]
        stack_of(b, k) is Some ==> stack_of(a, k) is Some && value_le(
            stack_of(a, k)->Some_0,
            stack_of(b, k)->Some_0,
        )
    &&& param_ids(a).subset_of(param_ids(b))
    &&& forall|f: AccessFlag| #[trigger] flagged(a, f).subset_of(flagged(b, f))
}

/// Merging two states does not depend on their order.
pub proof fn lemma_merge_commutative(a: State, b: State, ab: State, ba: State)
    requires
        a.stack_id == b.stack_id,
        merged(a, b, ab),
        merged(b, a, ba),
    ensures
        equivalent(ab, ba),
{
    assert forall|r: usize| #[trigger] reg_of(ab, r) == reg_of(ba, r) by {
        if reg_of(a, r) is Some && reg_of(b, r) is Some {
            lemma_join_commutative(reg_of(a, r)->Some_0, reg_of(b, r)->Some_0);
        }
    }
    assert forall|k: i64| #[trigger] stack_of(ab, k) == stack_of(ba, k) by {
        if stack_of(a, k) is Some && stack_of(b, k) is Some {
            lemma_join_commutative(stack_of(a, k)->Some_0, stack_of(b, k)->Some_0);
        }
    }
    assert(param_ids(ab) =~= param_ids(ba));
    assert forall|f: AccessFlag| #[trigger] flagged(ab, f) == flagged(ba, f) by {
        assert(flagged(ab, f) =~= flagged(ba, f));
    }
}

/// Merging three states does not depend on their grouping.
pub proof fn lemma_merge_associative(
    a: State,
    b: State,
    c: State,
    ab: State,
    ab_c: State,
    bc: State,
    a_bc: State,
)
    requires
        a.stack_id == b.stack_id,
        b.stack_id == c.stack_id,
        merged(a, b, ab),
        merged(ab, c, ab_c),
        merged(b, c, bc),
        merged(a, bc, a_bc),
    ensures
        equivalent(ab_c, a_bc),
{
    assert forall|r: usize| #[trigger] reg_of(ab_c, r) == reg_of(a_bc, r) by {
        assert(reg_of(ab, r) == opt_join(reg_of(a, r), reg_of(b, r)));
        assert(reg_of(bc, r) == opt_join(reg_of(b, r), reg_of(c, r)));
        if reg_of(a, r) is Some && reg_of(b, r) is Some && reg_of(c, r) is Some {
            lemma_join_associative(
                reg_of(a, r)->Some_0,
                reg_of(b, r)->Some_0,
                reg_of(c, r)->Some_0,
            );
        }
    }
    assert forall|k: i64| #[trigger] stack_of(ab_c, k) == stack_of(a_bc, k) by {
        assert(stack_of(ab, k) == opt_join(stack_of(a, k), stack_of(b, k)));
        assert(stack_of(bc, k) == opt_join(stack_of(b, k), stack_of(c, k)));
        if stack_of(a, k) is Some && stack_of(b, k) is Some && stack_of(c, k) is Some {
            lemma_join_associative(
                stack_of(a, k)->Some_0,
                stack_of(b, k)->Some_0,
                stack_of(c, k)->Some_0,
            );
        }
    }
    assert(param_ids(ab_c) =~= param_ids(a_bc));
    assert forall|f: AccessFlag| #[trigger] flagged(ab_c, f) == flagged(a_bc, f) by {
        assert(flagged(ab, f) == flagged(a, f).union(flagged(b, f)));
        assert(flagged(bc, f) == flagged(b, f).union(flagged(c, f)));
        assert(flagged(ab_c, f) =~= flagged(a_bc, f));
    }
}

/// Merging a state with itself changes no information.
pub proof fn lemma_merge_idempotent(a: State, aa: State)
    requires
        merged(a, a, aa),
    ensures
        equivalent(aa, a),
{
    assert forall|r: usize| #[trigger] reg_of(aa, r) == reg_of(a, r) by {
        if reg_of(a, r) is Some {
            lemma_join_idempotent(reg_of(a, r)->Some_0);
        }
    }
    assert forall|k: i64| #[trigger] stack_of(aa, k) == stack_of(a, k) by {
        if stack_of(a, k) is Some {
            lemma_join_idempotent(stack_of(a, k)->Some_0);
        }
    }
    assert(param_ids(aa) =~= param_ids(a));
    assert forall|f: AccessFlag| #[trigger] flagged(aa, f) == flagged(a, f) by {
        assert(flagged(aa, f) =~= flagged(a, f));
    }
}

/// The merge of two states admits everything that either of them admits.
pub proof fn lemma_merge_upper_bound(a: State, b: State, m: State)
    requires
        merged(a, b, m),
    ensures
        state_le(a, m),
        state_le(b, m),
{
    assert forall|r: usize| #[trigger] reg_of(m, r) is Some implies reg_of(a, r) is Some
        && value_le(reg_of(a, r)->Some_0, reg_of(m, r)->Some_0) && reg_of(b, r) is Some
        && value_le(reg_of(b, r)->Some_0, reg_of(m, r)->Some_0) by {
        lemma_join_upper_bound(reg_of(a, r)->Some_0, reg_of(b, r)->Some_0);
    }
    assert forall|k: i64| #[trigger] stack_of(m, k) is Some implies stack_of(a, k) is Some
        && value_le(stack_of(a, k)->Some_0, stack_of(m, k)->Some_0) && stack_of(b, k) is Some
        && value_le(stack_of(b, k)->Some_0, stack_of(m, k)->Some_0) by {
        lemma_join_upper_bound(stack_of(a, k)->Some_0, stack_of(b, k)->Some_0);
    }
    assert forall|f: AccessFlag| #[trigger] flagged(a, f).subset_of(flagged(m, f)) && flagged(
        b,
        f,
    ).subset_of(flagged(m, f)) by {
        assert(flagged(m, f) == flagged(a, f).union(flagged(b, f)));
    }
}


/// The value of an argument: its expression, or what is stored where its address points.
pub open spec fn eval_arg_spec(s: State, a: Arg) -> ValueView {
    match a {
        Arg::Register { expr, .. } => eval_spec(s, expr),
        Arg::Stack { address, .. } => load_spec(s, eval_spec(s, address)),
    }
}

/// The ids in the values of those arguments whose access pattern has flag `f`.
pub open spec fn access_ids(s: State, ps: Seq<(Arg, AccessPattern)>, f: AccessFlag) -> Set<AbstractId> {
    Set::new(
        |id: AbstractId|
            exists|i: int|
                0 <= i < ps.len() && has_flag(ps[i].1, f) && ids_of(eval_arg_spec(s, ps[i].0)).contains(id),
    )
}

/// `b` is `a` with the access patterns of `ps` added to the parameter ids that the arguments hold.
pub open spec fn access_merged(a: State, b: State, ps: Seq<(Arg, AccessPattern)>) -> bool {
    &&& same_values(a, b)
    &&& forall|f: AccessFlag| #[trigger] flagged(b, f) == flagged(a, f).union(
        param_ids(a).intersect(access_ids(a, ps, f)),
    )
}

/// The argument through which a caller passes the value of `id`, where `id`
/// names a register or stack slot of the function at its entry.
pub open spec fn arg_of_id(s: State, id: AbstractId) -> Option<Arg> {
    if id.tid != s.stack_id.tid {
        None
    } else {
        match id.location {
            Location::Register(v) => Some(Arg::Register { expr: Expression::Var(v), data_type: None }),
            Location::Stack(o, size) => match s.stack_id.location {
                Location::Register(sp) => Some(
                    Arg::Stack {
                        address: Expression::PlusConst(Box::new(Expression::Var(sp)), o),
                        size,
                        data_type: None,
                    },
                ),
                Location::Stack(_, _) => None,
            },
        }
    }
}

/// The argument of a parameter id of the state's function.
pub open spec fn param_arg(s: State, id: AbstractId) -> Option<Arg> {
    if param_ids(s).contains(id) {
        arg_of_id(s, id)
    } else {
        None
    }
}

/// The parameters of the function with their usage, over the first `n` entries.
pub open spec fn params_prefix(s: State, n: int) -> Seq<(Arg, AccessPattern)>
    decreases n,
{
    if n <= 0 {
        Seq::empty()
    } else {
        match arg_of_id(s, s.params@[n - 1].0) {
            Some(a) => params_prefix(s, n - 1).push((a, s.params@[n - 1].1)),
            None => params_prefix(s, n - 1),
        }
    }
}

/// The value that a list of register assignments gives `r`: the last one wins.
pub open spec fn assigned(list: Seq<(Variable, ValueView)>, r: usize) -> Option<ValueView>
    decreases list.len(),
{
    if list.len() == 0 {
        None
    } else if list.last().0.id == r {
        Some(list.last().1)
    } else {
        assigned(list.drop_last(), r)
    }
}

pub open spec fn views_of(list: Seq<(Variable, Value)>) -> Seq<(Variable, ValueView)> {
    list.map_values(|e: (Variable, Value)| (e.0, e.1@))
}

/// The value of `v` relative to the id of `v` at term `tid`.
pub open spec fn fresh_value(tid: u64, v: Variable) -> ValueView {
    ValueView {
        relative: set![(call_return_id(tid, v), 0i64)],
        absolute: Set::empty(),
        contains_top: false,
    }
}

/// Each register paired with the value that names it at term `tid`.
pub open spec fn fresh_values(tid: u64, regs: Seq<Variable>) -> Seq<(Variable, ValueView)> {
    regs.map_values(|v: Variable| (v, fresh_value(tid, v)))
}

/// The arguments, each read, and dereferenced too where it is a pointer and
/// `deref_pointers` holds.
pub open spec fn read_access(args: Seq<Arg>, deref_pointers: bool) -> Seq<(Arg, AccessPattern)> {
    args.map_values(|a: Arg| (a, AccessPattern {
        read: true,
        dereferenced: deref_pointers && is_pointer_arg(a),
        mutably_dereferenced: false,
    }))
}

pub open spec fn is_pointer_arg(a: Arg) -> bool {
    match a {
        Arg::Register { data_type, .. } => data_type == Some(Datatype::Pointer),
        Arg::Stack { data_type, .. } => data_type == Some(Datatype::Pointer),
    }
}

/// `b` is `a` after a call that this state does not look into: the usage in
/// `ps` is added, caller-saved registers are forgotten and each return
/// register holds a fresh id of the call.
pub open spec fn call_effect(
    a: State,
    b: State,
    ps: Seq<(Arg, AccessPattern)>,
    cc: CallingConvention,
    call_tid: u64,
) -> bool {
    &&& forall|k: i64| #[trigger] stack_of(b, k) == stack_of(a, k)
    &&& b.stack_id == a.stack_id
    &&& param_ids(b) == param_ids(a)
    &&& forall|f: AccessFlag| #[trigger] flagged(b, f) == flagged(a, f).union(
        param_ids(a).intersect(access_ids(a, ps, f)),
    )
    &&& forall|r: usize| #[trigger] reg_of(b, r) == match assigned(fresh_values(call_tid, return_registers_of(cc)), r) {
        Some(v) => Some(v),
        None => if in_registers(cc.callee_saved_register@, r) {
            reg_of(a, r)
        } else {
            None
        },
    }
}

/// Whether `r` is among the given registers.
pub open spec fn in_registers(regs: Seq<Variable>, r: usize) -> bool {
    exists|i: int| 0 <= i < regs.len() && regs[i].id == r
}

/// The value that an unknown callee leaves in each return register: a fresh
/// id of the call and the register.
pub open spec fn fresh_returns(call_tid: u64, regs: Seq<Variable>) -> Seq<(Variable, ValueView)> {
    regs.map_values(|v: Variable| (v, ValueView {
        relative: set![(call_return_id(call_tid, v), 0i64)],
        absolute: Set::empty(),
        contains_top: false,
    }))
}

/// The registers of `b` after a call returned to `a`: the assigned return
/// values, the callee-saved registers of `a`, and nothing else.
pub open spec fn registers_after_call(a: State, b: State, saved: Seq<Variable>, list: Seq<(Variable, ValueView)>) -> bool {
    forall|r: usize| #[trigger] reg_of(b, r) == match assigned(list, r) {
        Some(v) => Some(v),
        None => if in_registers(saved, r) {
            reg_of(a, r)
        } else {
            None
        },
    }
}

/// The evaluation of expressions depends on registers and stack alone.
pub proof fn lemma_eval_same_values(a: State, b: State, e: Expression)
    requires
        same_memory(a, b),
    ensures
        eval_spec(a, e) == eval_spec(b, e),
    decreases e,
{
    match e {
        Expression::Var(v) => {
            assert(reg_value(a, v.id) == reg_value(b, v.id));
        },
        Expression::Const(_) => {},
        Expression::PlusConst(inner, _) => {
            lemma_eval_same_values(a, b, *inner);
        },
        Expression::BinOp(_, _) => {},
    }
}

pub proof fn lemma_access_ids_same_values(a: State, b: State, ps: Seq<(Arg, AccessPattern)>, f: AccessFlag)
    requires
        same_memory(a, b),
    ensures
        access_ids(a, ps, f) == access_ids(b, ps, f),
{
    assert forall|i: int| 0 <= i < ps.len() implies #[trigger] eval_arg_spec(a, ps[i].0) == eval_arg_spec(b, ps[i].0) by {
        match ps[i].0 {
            Arg::Register { expr, .. } => lemma_eval_same_values(a, b, expr),
            Arg::Stack { address, .. } => {
                lemma_eval_same_values(a, b, address);
            },
        }
    }
    assert(access_ids(a, ps, f) =~= access_ids(b, ps, f));
}

/// Registers and stack slots hold the same values, over the same stack id.
pub open spec fn same_memory(a: State, b: State) -> bool {
    &&& a.stack_id == b.stack_id
    &&& forall|r: usize| #[trigger] reg_of(a, r) == reg_of(b, r)
    &&& forall|k: i64| #[trigger] stack_of(a, k) == stack_of(b, k)
}

/// `b` holds what `a` holds: the same memory and the same parameter entries.
pub open spec fn same_state(a: State, b: State) -> bool {
    same_memory(a, b) && a.params@ == b.params@
}

/// States with the same content agree on every question that the contracts ask.
pub proof fn lemma_same_state(a: State, b: State)
    requires
        same_state(a, b),
    ensures
        forall|e: Expression| #[trigger] eval_spec(a, e) == eval_spec(b, e),
        forall|e: Expression| #[trigger] expr_ids(a, e) == expr_ids(b, e),
        forall|v: ValueView| #[trigger] exact_stack_offset(a, v) == exact_stack_offset(b, v),
        forall|v: ValueView| #[trigger] load_spec(a, v) == load_spec(b, v),
        forall|x: Arg| #[trigger] eval_arg_spec(a, x) == eval_arg_spec(b, x),
        forall|ps: Seq<(Arg, AccessPattern)>, f: AccessFlag| #[trigger] access_ids(a, ps, f) == access_ids(b, ps, f),
        param_ids(a) == param_ids(b),
        forall|f: AccessFlag| #[trigger] flagged(a, f) == flagged(b, f),
        forall|id: AbstractId| #[trigger] param_arg(a, id) == param_arg(b, id),
        forall|n: int| #[trigger] params_prefix(a, n) == params_prefix(b, n),
{
    assert forall|e: Expression| #[trigger] eval_spec(a, e) == eval_spec(b, e) by {
        lemma_eval_same_values(a, b, e);
    }
    assert forall|e: Expression| #[trigger] expr_ids(a, e) == expr_ids(b, e) by {
        lemma_expr_ids_same_values(a, b, e);
    }
    assert forall|x: Arg| #[trigger] eval_arg_spec(a, x) == eval_arg_spec(b, x) by {
        match x {
            Arg::Register { expr, .. } => lemma_eval_same_values(a, b, expr),
            Arg::Stack { address, .. } => lemma_eval_same_values(a, b, address),
        }
    }
    assert forall|ps: Seq<(Arg, AccessPattern)>, f: AccessFlag| #[trigger] access_ids(a, ps, f) == access_ids(b, ps, f) by {
        lemma_access_ids_same_values(a, b, ps, f);
    }
    assert forall|n: int| #[trigger] params_prefix(a, n) == params_prefix(b, n) by {
        lemma_params_prefix_same(a, b, n);
    }
}

proof fn lemma_params_prefix_same(a: State, b: State, n: int)
    requires
        same_state(a, b),
    ensures
        params_prefix(a, n) == params_prefix(b, n),
    decreases n,
{
    if n > 0 {
        lemma_params_prefix_same(a, b, n - 1);
    }
}

impl State {
    /// A copy with the same content.
    pub fn duplicate(&self) -> (r: State)
        ensures
            same_state(*self, r),
    {
        let mut registers: Vec<Option<Value>> = Vec::new();
        let mut i: usize = 0;
        while i < self.registers.len()
            invariant
                i <= self.registers@.len(),
                registers@.len() == i,
                forall|k: int| 0 <= k < i ==> opt_view(#[trigger] registers@[k]) == opt_view(self.registers@[k]),
            decreases self.registers@.len() - i,
        {
            let v = match &self.registers[i] {
                Some(x) => Some(x.duplicate()),
                None => None,
            };
            registers.push(v);
            i = i + 1;
        }
        let mut stack: Vec<(i64, Value)> = Vec::new();
        let mut j: usize = 0;
        assert(self.stack@.take(0) =~= Seq::<(i64, Value)>::empty());
        while j < self.stack.len()
            invariant
                j <= self.stack@.len(),
                forall|k: i64| #[trigger] slot_lookup(stack@, k) == slot_lookup(self.stack@.take(j as int), k),
            decreases self.stack@.len() - j,
        {
            let ghost before = stack@;
            stack.push((self.stack[j].0, self.stack[j].1.duplicate()));
            proof {
                let t = self.stack@.take(j + 1);
                assert(t.drop_last() =~= self.stack@.take(j as int));
                assert(stack@.drop_last() =~= before);
                assert forall|k: i64| #[trigger] slot_lookup(stack@, k) == slot_lookup(t, k) by {
                    assert(slot_lookup(t, k) == if t.last().0 == k {
                        Some(t.last().1@)
                    } else {
                        slot_lookup(t.drop_last(), k)
                    });
                    assert(slot_lookup(stack@, k) == if stack@.last().0 == k {
                        Some(stack@.last().1@)
                    } else {
                        slot_lookup(stack@.drop_last(), k)
                    });
                }
            }
            j = j + 1;
        }
        assert(self.stack@.take(j as int) =~= self.stack@);
        let mut params: Vec<(AbstractId, AccessPattern)> = Vec::new();
        let mut p: usize = 0;
        while p < self.params.len()
            invariant
                p <= self.params@.len(),
                params@ == self.params@.take(p as int),
            decreases self.params@.len() - p,
        {
            params.push(self.params[p]);
            p = p + 1;
            assert(params@ =~= self.params@.take(p as int));
        }
        assert(params@ =~= self.params@);
        let r = State { registers, stack, params, stack_id: self.stack_id };
        assert forall|reg: usize| #[trigger] reg_of(*self, reg) == reg_of(r, reg) by {
            if reg < self.registers@.len() {
                assert(opt_view(r.registers@[reg as int]) == opt_view(self.registers@[reg as int]));
            }
        }
        r
    }

    /// The value of an argument in this state.
    pub fn eval_parameter_arg(&self, arg: &Arg) -> (r: Value)
        ensures
            r@ == eval_arg_spec(*self, *arg),
    {
        match arg {
            Arg::Register { expr, .. } => self.eval(expr),
            Arg::Stack { address, .. } => {
                let a = self.eval(address);
                self.load_value(&a)
            },
        }
    }

    /// Sets flag `f` on the parameter ids held by those arguments whose pattern has `f`.
    fn flag_access(&mut self, ps: &Vec<(Arg, AccessPattern)>, f: AccessFlag)
        ensures
            flags_added(*old(self), *final(self), f, access_ids(*old(self), ps@, f)),
    {
        let ghost s0 = *self;
        proof {
            lemma_flags_added_none(*self, f);
        }
        let mut i: usize = 0;
        assert(Set::<AbstractId>::empty() =~= Set::new(
            |id: AbstractId|
                exists|k: int|
                    0 <= k < i && has_flag(ps@[k].1, f) && ids_of(eval_arg_spec(s0, ps@[k].0)).contains(id),
        ));
        while i < ps.len()
            invariant
                i <= ps@.len(),
                s0 == *old(self),
                flags_added(s0, *self, f, Set::new(
                    |id: AbstractId|
                        exists|k: int|
                            0 <= k < i && has_flag(ps@[k].1, f) && ids_of(eval_arg_spec(s0, ps@[k].0)).contains(id),
                )),
            decreases ps@.len() - i,
        {
            let ghost prev = Set::new(
                |id: AbstractId|
                    exists|k: int|
                        0 <= k < i && has_flag(ps@[k].1, f) && ids_of(eval_arg_spec(s0, ps@[k].0)).contains(id),
            );
            let ghost next = Set::new(
                |id: AbstractId|
                    exists|k: int|
                        0 <= k < i + 1 && has_flag(ps@[k].1, f) && ids_of(eval_arg_spec(s0, ps@[k].0)).contains(id),
            );
            let ghost s1 = *self;
            let flag_set = match f {
                AccessFlag::Read => ps[i].1.read,
                AccessFlag::Deref => ps[i].1.dereferenced,
                AccessFlag::MutDeref => ps[i].1.mutably_dereferenced,
            };
            if flag_set {
                let v = self.eval_parameter_arg(&ps[i].0);
                self.set_flag_for_ids_of_value(&v, f);
                proof {
                    lemma_access_ids_same_values(s0, s1, ps@, f);
                    match ps@[i as int].0 {
                        Arg::Register { expr, .. } => lemma_eval_same_values(s0, s1, expr),
                        Arg::Stack { address, .. } => {
                            lemma_eval_same_values(s0, s1, address);
                        },
                    }
                    assert(eval_arg_spec(s0, ps@[i as int].0) == eval_arg_spec(s1, ps@[i as int].0));
                    lemma_flags_added_compose(s0, s1, *self, f, prev, ids_of(v@));
                    assert(prev.union(ids_of(v@)) =~= next);
                }
            } else {
                assert(prev =~= next);
            }
            i = i + 1;
        }
        assert(access_ids(s0, ps@, f) =~= Set::new(
            |id: AbstractId|
                exists|k: int|
                    0 <= k < i && has_flag(ps@[k].1, f) && ids_of(eval_arg_spec(s0, ps@[k].0)).contains(id),
        ));
    }

    /// Adds the access patterns of a callee's parameters to the parameter ids
    /// that the caller passed in them.
    pub fn merge_parameter_access(&mut self, ps: &Vec<(Arg, AccessPattern)>)
        ensures
            access_merged(*old(self), *final(self), ps@),
    {
        let ghost s0 = *self;
        self.flag_access(ps, AccessFlag::Read);
        let ghost s1 = *self;
        self.flag_access(ps, AccessFlag::Deref);
        let ghost s2 = *self;
        self.flag_access(ps, AccessFlag::MutDeref);
        proof {
            lemma_access_ids_same_values(s0, s1, ps@, AccessFlag::Deref);
            lemma_access_ids_same_values(s0, s2, ps@, AccessFlag::MutDeref);
            assert forall|f: AccessFlag| #[trigger] flagged(*self, f) == flagged(s0, f).union(
                param_ids(s0).intersect(access_ids(s0, ps@, f))) by {
                match f {
                    AccessFlag::Read => {},
                    AccessFlag::Deref => {},
                    AccessFlag::MutDeref => {},
                }
            }
        }
    }

    /// The argument through which a caller passes the parameter `id`, if `id`
    /// is a parameter of this state's function.
    pub fn get_arg_corresponding_to_id(&self, id: AbstractId) -> (r: Option<Arg>)
        ensures
            r == param_arg(*self, id),
    {
        if !has_entry(&self.params, id) {
            return None;
        }
        self.arg_of_id(id)
    }

    fn arg_of_id(&self, id: AbstractId) -> (r: Option<Arg>)
        ensures
            r == arg_of_id(*self, id),
    {
        if id.tid != self.stack_id.tid {
            return None;
        }
        match id.location {
            Location::Register(v) => Some(Arg::Register { expr: Expression::Var(v), data_type: None }),
            Location::Stack(o, size) => match self.stack_id.location {
                Location::Register(sp) => Some(
                    Arg::Stack { address: Expression::Var(sp).plus_const(o), size, data_type: None },
                ),
                Location::Stack(_, _) => None,
            },
        }
    }

    /// The parameters of the function, as the arguments a caller passes them
    /// in, with how the function used them.
    pub fn get_params_of_current_function(&self) -> (r: Vec<(Arg, AccessPattern)>)
        ensures
            r@ == params_prefix(*self, self.params@.len() as int),
    {
        let mut r: Vec<(Arg, AccessPattern)> = Vec::new();
        let mut i: usize = 0;
        while i < self.params.len()
            invariant
                i <= self.params@.len(),
                r@ == params_prefix(*self, i as int),
            decreases self.params@.len() - i,
        {
            let (id, access) = self.params[i];
            match self.arg_of_id(id) {
                Some(a) => r.push((a, access)),
                None => {},
            }
            i = i + 1;
        }
        r
    }

    /// Forgets every register but the callee-saved ones.
    pub fn clear_non_callee_saved_register(&mut self, saved: &Vec<Variable>)
        ensures
            forall|r: usize| #[trigger] reg_of(*final(self), r) == if in_registers(saved@, r) {
                reg_of(*old(self), r)
            } else {
                None
            },
            final(self).stack@ == old(self).stack@,
            final(self).params@ == old(self).params@,
            final(self).stack_id == old(self).stack_id,
    {
        let mut i: usize = 0;
        while i < self.registers.len()
            invariant
                i <= self.registers@.len(),
                self.registers@.len() == old(self).registers@.len(),
                forall|k: int| 0 <= k < self.registers@.len() ==> #[trigger] self.registers@[k] == if k >= i || in_registers(saved@, k as usize) {
                    old(self).registers@[k]
                } else {
                    None
                },
                self.stack@ == old(self).stack@,
                self.params@ == old(self).params@,
                self.stack_id == old(self).stack_id,
            decreases self.registers@.len() - i,
        {
            let mut keep = false;
            let mut j: usize = 0;
            while j < saved.len()
                invariant
                    j <= saved@.len(),
                    keep == exists|k: int| 0 <= k < j && saved@[k].id == i,
                decreases saved@.len() - j,
            {
                if saved[j].id == i {
                    keep = true;
                }
                j = j + 1;
            }
            if !keep {
                self.registers.set(i, None);
            }
            i = i + 1;
        }
    }

    /// Writes the listed values into their registers, in order.
    pub fn set_registers(&mut self, list: Vec<(Variable, Value)>)
        ensures
            forall|r: usize| #[trigger] reg_of(*final(self), r) == match assigned(views_of(list@), r) {
                Some(v) => Some(v),
                None => reg_of(*old(self), r),
            },
            final(self).stack@ == old(self).stack@,
            final(self).params@ == old(self).params@,
            final(self).stack_id == old(self).stack_id,
    {
        let ghost l = list@;
        let n = list.len();
        let mut list = list;
        let mut rest: Vec<(Variable, Value)> = Vec::new();
        // reverse, so that popping yields the entries in order
        while list.len() > 0
            invariant
                l == list@ + rest@.reverse(),
            decreases list@.len(),
        {
            let e = list.pop().unwrap();
            rest.push(e);
            assert(l =~= list@ + rest@.reverse());
        }
        assert(rest@.reverse() =~= l);
        let mut done: usize = 0;
        assert(views_of(l.take(0)) =~= Seq::<(Variable, ValueView)>::empty());
        while rest.len() > 0
            invariant
                done + rest@.len() == l.len(),
                l.len() == n,
                l == l.take(done as int) + rest@.reverse(),
                forall|r: usize| #[trigger] reg_of(*self, r) == match assigned(views_of(l.take(done as int)), r) {
                    Some(v) => Some(v),
                    None => reg_of(*old(self), r),
                },
                self.stack@ == old(self).stack@,
                self.params@ == old(self).params@,
                self.stack_id == old(self).stack_id,
            decreases rest@.len(),
        {
            let ghost before = rest@;
            let (var, value) = rest.pop().unwrap();
            proof {
                assert(before.reverse() =~= seq![(var, value)] + rest@.reverse());
                assert(l[done as int] == (var, value));
                assert(views_of(l.take(done + 1)).drop_last() =~= views_of(l.take(done as int)));
                assert(views_of(l.take(done + 1)).last() == (var, value@));
            }
            self.set_register(&var, value);
            done = done + 1;
            assert(l =~= l.take(done as int) + rest@.reverse());
        }
        assert(l.take(done as int) =~= l);
    }

    /// The state at the entry of function `fn_tid`: each parameter register of
    /// the convention holds its own parameter id, unused so far, and the
    /// stack register holds the stack id.
    pub fn new(fn_tid: u64, stack_register: &Variable, cc: &CallingConvention) -> (r: State)
        ensures
            r.stack_id == call_return_id(fn_tid, *stack_register),
            r.params@ == parameter_registers_of(*cc).map_values(
                |v: Variable| (call_return_id(fn_tid, v), AccessPattern { read: false, dereferenced: false, mutably_dereferenced: false }),
            ),
            forall|reg: usize| #[trigger] reg_of(r, reg) == assigned(
                fresh_values(fn_tid, parameter_registers_of(*cc).push(*stack_register)),
                reg,
            ),
            forall|k: i64| #[trigger] stack_of(r, k) is None,
            wf(r),
    {
        let regs = cc.parameter_registers();
        let mut params: Vec<(AbstractId, AccessPattern)> = Vec::new();
        let mut list: Vec<(Variable, Value)> = Vec::new();
        let ghost all = regs@.push(*stack_register);
        let mut i: usize = 0;
        while i < regs.len()
            invariant
                i <= regs@.len(),
                regs@ == parameter_registers_of(*cc),
                all == regs@.push(*stack_register),
                params@ == regs@.take(i as int).map_values(
                    |v: Variable| (call_return_id(fn_tid, v), AccessPattern { read: false, dereferenced: false, mutably_dereferenced: false }),
                ),
                views_of(list@) == fresh_values(fn_tid, all.take(i as int)),
            decreases regs@.len() - i,
        {
            let v = regs[i];
            let id = AbstractId::new_from_var(fn_tid, v);
            params.push((id, AccessPattern { read: false, dereferenced: false, mutably_dereferenced: false }));
            assert(regs@.take(i + 1) =~= regs@.take(i as int).push(v));
            let value = Value::from_target(id, 0);
            assert(value@.absolute =~= Set::<i64>::empty());
            assert(value@ == fresh_value(fn_tid, v));
            let ghost before = list@;
            list.push((v, value));
            assert(views_of(list@) =~= views_of(before).push((v, fresh_value(fn_tid, v))));
            assert(all.take(i + 1) =~= all.take(i as int).push(v));
            i = i + 1;
            assert(params@ =~= regs@.take(i as int).map_values(
                |v: Variable| (call_return_id(fn_tid, v), AccessPattern { read: false, dereferenced: false, mutably_dereferenced: false }),
            ));
            assert(views_of(list@) =~= fresh_values(fn_tid, all.take(i as int)));
        }
        let stack_id = AbstractId::new_from_var(fn_tid, *stack_register);
        let value = Value::from_target(stack_id, 0);
        assert(value@.absolute =~= Set::<i64>::empty());
        assert(value@ == fresh_value(fn_tid, *stack_register));
        let ghost before = list@;
        list.push((*stack_register, value));
        assert(views_of(list@) =~= views_of(before).push((*stack_register, fresh_value(fn_tid, *stack_register))));
        assert(all.take(i as int) =~= regs@);
        assert(regs@.take(i as int) =~= regs@);
        assert(fresh_values(fn_tid, all) =~= fresh_values(fn_tid, all.take(i as int)).push((*stack_register, fresh_value(fn_tid, *stack_register))));
        let ghost lv = views_of(list@);
        assert(lv == fresh_values(fn_tid, all));
        let mut state = State { registers: Vec::new(), stack: Vec::new(), params, stack_id };
        assert(forall|reg: usize| #[trigger] reg_of(state, reg) is None);
        state.set_registers(list);
        assert forall|id: AbstractId| #[trigger] param_ids(state).contains(id) implies id.tid == state.stack_id.tid by {
            let k = choose|k: int| 0 <= k < state.params@.len() && state.params@[k].0 == id;
            assert(regs@.take(i as int)[k] == regs@[k]);
        }
        state
    }

    /// Applies to the state a call whose callee it does not look into.
    fn apply_opaque_call(&mut self, call_tid: u64, ps: &Vec<(Arg, AccessPattern)>, cc: &CallingConvention)
        ensures
            call_effect(*old(self), *final(self), ps@, *cc, call_tid),
    {
        let ghost s0 = *self;
        self.merge_parameter_access(ps);
        let ghost s1 = *self;
        self.clear_non_callee_saved_register(&cc.callee_saved_register);
        let ghost s2 = *self;
        let regs = cc.return_registers();
        let mut list: Vec<(Variable, Value)> = Vec::new();
        let mut i: usize = 0;
        while i < regs.len()
            invariant
                i <= regs@.len(),
                views_of(list@) == fresh_values(call_tid, regs@.take(i as int)),
            decreases regs@.len() - i,
        {
            let v = regs[i];
            let value = Value::from_target(AbstractId::new_from_var(call_tid, v), 0);
            assert(value@.relative == set![(call_return_id(call_tid, v), 0i64)]);
            assert(value@.absolute =~= Set::<i64>::empty());
            assert(value@ == fresh_value(call_tid, v));
            let ghost before = list@;
            list.push((v, value));
            assert(views_of(list@) =~= views_of(before).push((v, fresh_value(call_tid, v))));
            assert(regs@.take(i + 1) =~= regs@.take(i as int).push(v));
            i = i + 1;
            assert(views_of(list@) =~= fresh_values(call_tid, regs@.take(i as int)));
        }
        assert(regs@.take(i as int) =~= regs@);
        self.set_registers(list);
        proof {
            assert(param_ids(s2) == param_ids(s1));
            assert forall|f: AccessFlag| #[trigger] flagged(*self, f) == flagged(s1, f) by {}
        }
    }

    /// The effect of a call to a function that is not known at all: it may
    /// read every parameter register of the convention, keeps the
    /// callee-saved registers and returns values of unknown origin.
    pub fn handle_unknown_function_stub(&mut self, call_tid: u64, cc: &CallingConvention)
        ensures
            call_effect(*old(self), *final(self), read_access(parameter_args_of(*cc), false), *cc, call_tid),
    {
        let args = cc.parameter_args();
        let ps = read_access_list(&args, false);
        self.apply_opaque_call(call_tid, &ps, cc);
    }

    /// The effect of a call to an extern symbol: each declared parameter is
    /// read, and dereferenced where it is a pointer; callee-saved registers
    /// survive and the return registers hold values of unknown origin.
    pub fn handle_extern_symbol(&mut self, call_tid: u64, params: &Vec<Arg>, cc: &CallingConvention)
        ensures
            call_effect(*old(self), *final(self), read_access(params@, true), *cc, call_tid),
    {
        let ps = read_access_list(params, true);
        self.apply_opaque_call(call_tid, &ps, cc);
    }
}

fn read_access_list(args: &Vec<Arg>, deref_pointers: bool) -> (r: Vec<(Arg, AccessPattern)>)
    ensures
        r@ == read_access(args@, deref_pointers),
{
    let mut r: Vec<(Arg, AccessPattern)> = Vec::new();
    let mut i: usize = 0;
    while i < args.len()
        invariant
            i <= args@.len(),
            r@ == read_access(args@.take(i as int), deref_pointers),
        decreases args@.len() - i,
    {
        let a = args[i].duplicate();
        let pointer = match &a {
            Arg::Register { data_type, .. } => match data_type {
                Some(Datatype::Pointer) => true,
                _ => false,
            },
            Arg::Stack { data_type, .. } => match data_type {
                Some(Datatype::Pointer) => true,
                _ => false,
            },
        };
        let access = AccessPattern { read: true, dereferenced: deref_pointers && pointer, mutably_dereferenced: false };
        r.push((a, access));
        i = i + 1;
        assert(r@ =~= read_access(args@.take(i as int), deref_pointers));
    }
    assert(args@.take(i as int) =~= args@);
    r
}

} // verus!
