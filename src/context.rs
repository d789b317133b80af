//! The transfer functions of the forward interprocedural analysis that
//! recovers how functions use their parameters and what their return values
//! are derived from.

use vstd::prelude::*;
use crate::domain::{AbstractId, Value, ValueView, call_return_id, ids_of, shift};
use crate::ir::{
    Arg, CallingConvention, Def, Expression, Jmp, Project, Term, Variable, convention_of,
    extern_symbol_at, parameter_args_of, return_registers_of,
};
use crate::state::{
    AccessFlag, wf, State, call_effect, eval_arg_spec, eval_spec, exact_stack_offset, expr_ids,
    flagged, lemma_same_state, access_ids, load_spec, param_arg, param_ids, params_prefix, read_access, reg_of,
    registers_after_call, same_memory, stack_of, views_of,
};


verus! {

/// The context of the fixpoint computation: the project whose functions are analysed.
pub struct Context<'a> {
    pub project: &'a Project,
}

/// The origins that a callee's relative value `e` stands for in the caller:
/// the caller's value of the parameter `e` is relative to, moved by `e`'s offset.
pub open spec fn translate(caller: State, callee: State, e: (AbstractId, i64)) -> Set<(AbstractId, i64)> {
    match param_arg(callee, e.0) {
        Some(a) => shift(eval_arg_spec(caller, a), e.1).relative,
        None => Set::empty(),
    }
}

/// Whether `e` brings in a part that the caller cannot name: it is relative
/// to no parameter, or the caller passed an unknown or absolute value.
pub open spec fn entry_unknown(caller: State, callee: State, e: (AbstractId, i64)) -> bool {
    match param_arg(callee, e.0) {
        Some(a) => eval_arg_spec(caller, a).contains_top || !eval_arg_spec(caller, a).absolute.is_empty(),
        None => true,
    }
}

pub open spec fn translated_part(caller: State, callee: State, reg: Variable) -> Set<(AbstractId, i64)> {
    Set::new(|p: (AbstractId, i64)| exists|e: (AbstractId, i64)|
        crate::state::reg_value(callee, reg.id).relative.contains(e) && #[trigger] translate(caller, callee, e).contains(p))
}

pub open spec fn may_be_unknown(caller: State, callee: State, reg: Variable) -> bool {
    let v = crate::state::reg_value(callee, reg.id);
    v.contains_top || !v.absolute.is_empty() || exists|e: (AbstractId, i64)|
        v.relative.contains(e) && #[trigger] entry_unknown(caller, callee, e)
}

/// The value that the caller sees in `reg` after the call at `call_tid`
/// returns: the callee's value expressed in the caller's ids, plus the id of
/// the call and register where part of it has no name in the caller.
pub open spec fn return_value_spec(caller: State, callee: State, reg: Variable, call_tid: u64) -> ValueView {
    ValueView {
        relative: translated_part(caller, callee, reg).union(
            if may_be_unknown(caller, callee, reg) {
                set![(call_return_id(call_tid, reg), 0i64)]
            } else {
                Set::empty()
            },
        ),
        absolute: Set::empty(),
        contains_top: false,
    }
}

/// The return values of every return register of the convention.
pub open spec fn return_values_spec(caller: State, callee: State, cc: CallingConvention, call_tid: u64) -> Seq<(Variable, ValueView)> {
    return_registers_of(cc).map_values(|v: Variable| (v, return_value_spec(caller, callee, v, call_tid)))
}

/// `b` is `a` with flag `f` added to the parameter ids among `ids`, all else kept.
pub open spec fn flagged_as(a: State, b: State, f: AccessFlag, ids: Set<AbstractId>) -> bool {
    &&& same_memory(a, b)
    &&& param_ids(b) == param_ids(a)
    &&& flagged(b, f) == flagged(a, f).union(param_ids(a).intersect(ids))
    &&& forall|g: AccessFlag| g != f ==> #[trigger] flagged(b, g) == flagged(a, g)
}

/// What a statement does to the state.
pub open spec fn def_transfer(a: State, b: State, d: Def) -> bool {
    match d {
        Def::Assign { var, value } => {
            &&& b.stack_id == a.stack_id
            &&& param_ids(b) == param_ids(a)
            &&& flagged(b, AccessFlag::Read) == flagged(a, AccessFlag::Read).union(param_ids(a).intersect(expr_ids(a, value)))
            &&& forall|g: AccessFlag| g != AccessFlag::Read ==> #[trigger] flagged(b, g) == flagged(a, g)
            &&& reg_of(b, var.id) == Some(eval_spec(a, value))
            &&& forall|r: usize| r != var.id ==> #[trigger] reg_of(b, r) == reg_of(a, r)
            &&& forall|k: i64| #[trigger] stack_of(b, k) == stack_of(a, k)
        },
        Def::Load { var, address } => {
            &&& b.stack_id == a.stack_id
            &&& param_ids(b) == param_ids(a)
            &&& flagged(b, AccessFlag::Deref) == flagged(a, AccessFlag::Deref).union(param_ids(a).intersect(expr_ids(a, address)))
            &&& forall|g: AccessFlag| g != AccessFlag::Deref ==> #[trigger] flagged(b, g) == flagged(a, g)
            &&& reg_of(b, var.id) == Some(load_spec(a, eval_spec(a, address)))
            &&& forall|r: usize| r != var.id ==> #[trigger] reg_of(b, r) == reg_of(a, r)
            &&& forall|k: i64| #[trigger] stack_of(b, k) == stack_of(a, k)
        },
        Def::Store { address, value } => {
            let target = eval_spec(a, address);
            &&& b.stack_id == a.stack_id
            &&& param_ids(b) == param_ids(a)
            &&& forall|r: usize| #[trigger] reg_of(b, r) == reg_of(a, r)
            &&& match exact_stack_offset(a, target) {
                Some(o) => {
                    &&& flagged(b, AccessFlag::Read) == flagged(a, AccessFlag::Read).union(
                        param_ids(a).intersect(if value is Var { Set::empty() } else { expr_ids(a, value) }),
                    )
                    &&& forall|g: AccessFlag| g != AccessFlag::Read ==> #[trigger] flagged(b, g) == flagged(a, g)
                    &&& stack_of(b, o) == Some(eval_spec(a, value))
                    &&& forall|k: i64| k != o ==> #[trigger] stack_of(b, k) == stack_of(a, k)
                },
                None => {
                    &&& flagged(b, AccessFlag::MutDeref) == flagged(a, AccessFlag::MutDeref).union(
                        param_ids(a).intersect(expr_ids(a, address)),
                    )
                    &&& flagged(b, AccessFlag::Read) == flagged(a, AccessFlag::Read).union(
                        param_ids(a).intersect(expr_ids(a, value)),
                    )
                    &&& flagged(b, AccessFlag::Deref) == flagged(a, AccessFlag::Deref)
                    &&& if ids_of(target).contains(a.stack_id) {
                        forall|k: i64| #[trigger] stack_of(b, k) is None
                    } else {
                        forall|k: i64| #[trigger] stack_of(b, k) == stack_of(a, k)
                    }
                },
            }
        },
    }
}

/// The expression whose ids a jump reads, if any.
pub open spec fn jump_read_expr(j: Jmp) -> Option<Expression> {
    match j {
        Jmp::BranchInd(e) => Some(e),
        Jmp::Return(e) => Some(e),
        Jmp::CBranch { condition, .. } => Some(condition),
        _ => None,
    }
}

impl<'a> Context<'a> {
    /// A context for the analysis of `project`.
    pub fn new(project: &'a Project) -> (r: Context<'a>)
        ensures
            r.project == project,
    {
        Context { project }
    }

    /// The value that the caller sees in `return_register` after the call:
    /// the callee's value there expressed in the ids of the caller, where the
    /// callee's value is relative to one of its parameters, and the id of the
    /// call and register for whatever part has no such expression.
    pub fn compute_return_register_value_of_call(
        &self,
        caller_state: &State,
        callee_state: &State,
        return_register: &Variable,
        call: &Term<Jmp>,
    ) -> (r: Value)
        ensures
            r@ == return_value_spec(*caller_state, *callee_state, *return_register, call.tid),
    {
        let callee_value = callee_state.get_register(return_register);
        let ghost cv = callee_value@;
        let mut acc = Value::new_empty();
        let mut unknown = callee_value.contains_top || callee_value.has_absolute();
        let mut i: usize = 0;
        while i < callee_value.relative.len()
            invariant
                i <= callee_value.relative@.len(),
                cv == callee_value@,
                cv == crate::state::reg_value(*callee_state, return_register.id),
                acc@.absolute == Set::<i64>::empty(),
                !acc@.contains_top,
                acc@.relative == Set::new(|p: (AbstractId, i64)| exists|k: int| 0 <= k < i
                    && #[trigger] translate(*caller_state, *callee_state, callee_value.relative@[k]).contains(p)),
                unknown == (cv.contains_top || !cv.absolute.is_empty() || exists|k: int| 0 <= k < i
                    && #[trigger] entry_unknown(*caller_state, *callee_state, callee_value.relative@[k])),
            decreases callee_value.relative@.len() - i,
        {
            let (callee_id, callee_offset) = callee_value.relative[i];
            let ghost e = callee_value.relative@[i as int];
            let ghost prev = acc@.relative;
            let ghost prev_unknown = unknown;
            match callee_state.get_arg_corresponding_to_id(callee_id) {
                Some(param_arg) => {
                    let param_value = caller_state.eval_parameter_arg(&param_arg);
                    if param_value.contains_top || param_value.has_absolute() {
                        unknown = true;
                    }
                    let shifted = param_value.add_offset(callee_offset);
                    let Value { relative, .. } = shifted;
                    let part = Value { relative, absolute: Vec::new(), contains_top: false };
                    assert(part@.relative =~= shift(param_value@, callee_offset).relative);
                    assert(part@.absolute =~= Set::<i64>::empty());
                    acc = acc.merge(&part);
                },
                None => {
                    unknown = true;
                },
            }
            proof {
                assert(translate(*caller_state, *callee_state, e) == if param_arg(*callee_state, e.0) is Some {
                    shift(eval_arg_spec(*caller_state, param_arg(*callee_state, e.0)->Some_0), e.1).relative
                } else {
                    Set::empty()
                });
                assert(acc@.relative =~= Set::new(|p: (AbstractId, i64)| exists|k: int| 0 <= k < i + 1
                    && #[trigger] translate(*caller_state, *callee_state, callee_value.relative@[k]).contains(p))) by {
                    assert forall|p: (AbstractId, i64)| acc@.relative.contains(p) <==> exists|k: int| 0 <= k < i + 1
                        && #[trigger] translate(*caller_state, *callee_state, callee_value.relative@[k]).contains(p) by {
                        if exists|k: int| 0 <= k < i + 1
                            && #[trigger] translate(*caller_state, *callee_state, callee_value.relative@[k]).contains(p) {
                            let k = choose|k: int| 0 <= k < i + 1
                                && #[trigger] translate(*caller_state, *callee_state, callee_value.relative@[k]).contains(p);
                            if k < i {
                                assert(prev.contains(p));
                            }
                        }
                    }
                }
                assert(unknown == (cv.contains_top || !cv.absolute.is_empty() || exists|k: int| 0 <= k < i + 1
                    && #[trigger] entry_unknown(*caller_state, *callee_state, callee_value.relative@[k]))) by {
                    assert(unknown == (prev_unknown || entry_unknown(*caller_state, *callee_state, e)));
                    if entry_unknown(*caller_state, *callee_state, e) {
                        assert(0 <= i < i + 1 && entry_unknown(*caller_state, *callee_state, callee_value.relative@[i as int]));
                    }
                    if exists|k: int| 0 <= k < i + 1
                        && #[trigger] entry_unknown(*caller_state, *callee_state, callee_value.relative@[k]) {
                        let k = choose|k: int| 0 <= k < i + 1
                            && #[trigger] entry_unknown(*caller_state, *callee_state, callee_value.relative@[k]);
                        if k < i {
                            assert(exists|k: int| 0 <= k < i
                                && #[trigger] entry_unknown(*caller_state, *callee_state, callee_value.relative@[k]));
                        }
                    }
                }
            }
            i = i + 1;
        }
        proof {
            assert(acc@.relative =~= translated_part(*caller_state, *callee_state, *return_register)) by {
                assert forall|p: (AbstractId, i64)| acc@.relative.contains(p) <==> translated_part(*caller_state, *callee_state, *return_register).contains(p) by {
                    if acc@.relative.contains(p) {
                        let k = choose|k: int| 0 <= k < i
                            && #[trigger] translate(*caller_state, *callee_state, callee_value.relative@[k]).contains(p);
                        assert(cv.relative.contains(callee_value.relative@[k]));
                    }
                    if translated_part(*caller_state, *callee_state, *return_register).contains(p) {
                        let e = choose|e: (AbstractId, i64)| cv.relative.contains(e) && #[trigger] translate(*caller_state, *callee_state, e).contains(p);
                        let k = choose|k: int| 0 <= k < callee_value.relative@.len() && callee_value.relative@[k] == e;
                        assert(translate(*caller_state, *callee_state, callee_value.relative@[k]).contains(p));
                    }
                }
            }
            assert(unknown == may_be_unknown(*caller_state, *callee_state, *return_register)) by {
                if unknown && !cv.contains_top && cv.absolute.is_empty() {
                    let k = choose|k: int| 0 <= k < i
                        && #[trigger] entry_unknown(*caller_state, *callee_state, callee_value.relative@[k]);
                    assert(cv.relative.contains(callee_value.relative@[k]));
                }
                if may_be_unknown(*caller_state, *callee_state, *return_register) && !cv.contains_top && cv.absolute.is_empty() {
                    let e = choose|e: (AbstractId, i64)| cv.relative.contains(e) && #[trigger] entry_unknown(*caller_state, *callee_state, e);
                    let k = choose|k: int| 0 <= k < callee_value.relative@.len() && callee_value.relative@[k] == e;
                    assert(entry_unknown(*caller_state, *callee_state, callee_value.relative@[k]));
                }
            }
        }
        if unknown {
            let id = AbstractId::new_from_var(call.tid, *return_register);
            let fresh = Value::from_target(id, 0);
            acc = acc.merge(&fresh);
        }
        proof {
            let spec_v = return_value_spec(*caller_state, *callee_state, *return_register, call.tid);
            assert(acc@.relative =~= spec_v.relative);
            assert(acc@.absolute =~= spec_v.absolute);
        }
        acc
    }

    /// The values of all return registers of the convention after the call,
    /// not yet written into any state.
    pub fn compute_return_values_of_call(
        &self,
        caller_state: &State,
        callee_state: &State,
        calling_convention: &CallingConvention,
        call: &Term<Jmp>,
    ) -> (r: Vec<(Variable, Value)>)
        ensures
            views_of(r@) == return_values_spec(*caller_state, *callee_state, *calling_convention, call.tid),
    {
        let regs = calling_convention.return_registers();
        let mut list: Vec<(Variable, Value)> = Vec::new();
        let mut i: usize = 0;
        while i < regs.len()
            invariant
                i <= regs@.len(),
                regs@ == return_registers_of(*calling_convention),
                views_of(list@) == return_values_spec(*caller_state, *callee_state, *calling_convention, call.tid).take(i as int),
            decreases regs@.len() - i,
        {
            let reg = regs[i];
            let value = self.compute_return_register_value_of_call(caller_state, callee_state, &reg, call);
            let ghost before = list@;
            list.push((reg, value));
            assert(views_of(list@) =~= views_of(before).push((reg, value@)));
            i = i + 1;
            assert(views_of(list@) =~= return_values_spec(*caller_state, *callee_state, *calling_convention, call.tid).take(i as int));
        }
        assert(return_values_spec(*caller_state, *callee_state, *calling_convention, call.tid).take(i as int)
            =~= return_values_spec(*caller_state, *callee_state, *calling_convention, call.tid));
        list
    }

    /// The join of two states of the same function at a control-flow merge.
    pub fn merge(&self, state_left: &State, state_right: &State) -> (r: State)
        requires
            state_left.stack_id == state_right.stack_id,
        ensures
            crate::state::merged(*state_left, *state_right, r),
            wf(*state_left) && wf(*state_right) ==> wf(r),
    {
        state_left.merge(state_right)
    }

    /// The state after a statement. Assignments read the ids of their source,
    /// loads dereference those of their address. A store to an exact stack
    /// slot reads only the ids of a stored value that is more than a bare
    /// register, so that saving a callee-saved register does not count as
    /// use; any other store dereferences its address mutably and reads its value.
    pub fn update_def(&self, state: &State, def: &Term<Def>) -> (r: Option<State>)
        ensures
            r matches Some(n) && def_transfer(*state, n, def.term),
            r matches Some(n) ==> (wf(*state) ==> wf(n)),
    {
        let mut new_state = state.duplicate();
        proof {
            lemma_same_state(*state, new_state);
        }
        match &def.term {
            Def::Assign { var, value } => {
                new_state.set_flag_for_input_ids_of_expression(value, AccessFlag::Read);
                let v = state.eval(value);
                new_state.set_register(var, v);
            },
            Def::Load { var, address } => {
                new_state.set_flag_for_input_ids_of_expression(address, AccessFlag::Deref);
                let a = state.eval(address);
                let v = state.load_value(&a);
                new_state.set_register(var, v);
            },
            Def::Store { address, value } => {
                let a = state.eval(address);
                let v = state.eval(value);
                if state.get_offset_if_exact_stack_pointer(&a).is_some() {
                    new_state.set_read_flag_for_input_ids_of_nontrivial_expression(value);
                } else {
                    new_state.set_flag_for_input_ids_of_expression(address, AccessFlag::MutDeref);
                    let ghost mid = new_state;
                    new_state.set_flag_for_input_ids_of_expression(value, AccessFlag::Read);
                    proof {
                        crate::state::lemma_expr_ids_same_values(mid, *state, *value);
                    }
                }
                let ghost before_write = new_state;
                new_state.write_value(&a, v);
                proof {
                    assert(same_memory(*state, before_write));
                    assert(exact_stack_offset(before_write, a@) == exact_stack_offset(*state, a@));
                }
            },
        }
        Some(new_state)
    }

    /// The state after a jump: indirect jumps and returns read the ids of
    /// their target, conditional jumps those of their condition.
    pub fn update_jump(&self, state: &State, jump: &Term<Jmp>) -> (r: Option<State>)
        ensures
            r matches Some(n) && match jump_read_expr(jump.term) {
                Some(e) => flagged_as(*state, n, AccessFlag::Read, expr_ids(*state, e)),
                None => flagged_as(*state, n, AccessFlag::Read, Set::empty()),
            },
            r matches Some(n) ==> (wf(*state) ==> wf(n)),
    {
        let mut new_state = state.duplicate();
        proof {
            lemma_same_state(*state, new_state);
        }
        match &jump.term {
            Jmp::BranchInd(address) => {
                new_state.set_flag_for_input_ids_of_expression(address, AccessFlag::Read);
            },
            Jmp::Return(address) => {
                new_state.set_flag_for_input_ids_of_expression(address, AccessFlag::Read);
            },
            Jmp::CBranch { condition, .. } => {
                new_state.set_flag_for_input_ids_of_expression(condition, AccessFlag::Read);
            },
            _ => {
                assert(flagged(new_state, AccessFlag::Read) =~= flagged(*state, AccessFlag::Read).union(
                    param_ids(*state).intersect(Set::empty())));
            },
        }
        Some(new_state)
    }

    /// The state at the entry of a callee: none, since each function is
    /// analysed from a fresh state and no value of the caller flows in.
    pub fn update_call(&self, state: &State, call: &Term<Jmp>) -> (r: Option<State>)
        ensures
            r is None,
    {
        None
    }

    /// The state after a call whose target is not analysed. An indirect call
    /// reads the ids of its target; under the binary's standard convention
    /// it then has the effect of an unknown function, and without one the
    /// path ends. A call to an extern symbol has the effect that its
    /// declaration gives, and ends the path where the symbol does not return
    /// or no convention applies. A call to another function under the
    /// standard convention has the effect of an unknown function.
    pub fn update_call_stub(&self, state: &State, call: &Term<Jmp>) -> (r: Option<State>)
        ensures
            match call.term {
                Jmp::CallInd { target, .. } => match self.project.standard_calling_convention {
                    Some(cc) => r matches Some(n) && exists|m: State|
                        flagged_as(*state, m, AccessFlag::Read, expr_ids(*state, target))
                            && call_effect(m, n, read_access(parameter_args_of(cc), false), cc, call.tid),
                    None => r is None,
                },
                Jmp::Call { target, .. } => match extern_symbol_at(*self.project, target) {
                    Some(sym) => match convention_of(*self.project, sym) {
                        Some(cc) => if sym.no_return {
                            r is None
                        } else {
                            r matches Some(n) && call_effect(*state, n, read_access(sym.parameters@, true), cc, call.tid)
                        },
                        None => r is None,
                    },
                    None => match self.project.standard_calling_convention {
                        Some(cc) => r matches Some(n) && call_effect(
                            *state, n, read_access(parameter_args_of(cc), false), cc, call.tid),
                        None => r is None,
                    },
                },
                _ => r is None,
            },
            r matches Some(n) ==> (wf(*state) ==> wf(n)),
    {
        let mut new_state = state.duplicate();
        proof {
            lemma_same_state(*state, new_state);
        }
        match &call.term {
            Jmp::CallInd { target, .. } => {
                new_state.set_flag_for_input_ids_of_expression(target, AccessFlag::Read);
                let ghost m = new_state;
                if let Some(cc) = self.project.get_standard_calling_convention() {
                    new_state.handle_unknown_function_stub(call.tid, cc);
                    assert(flagged_as(*state, m, AccessFlag::Read, expr_ids(*state, *target)));
                    return Some(new_state);
                }
            },
            Jmp::Call { target, .. } => {
                if let Some(extern_symbol) = self.project.get_extern_symbol(*target) {
                    if let Some(cc) = self.project.get_calling_convention(extern_symbol) {
                        new_state.handle_extern_symbol(call.tid, &extern_symbol.parameters, cc);
                        if !extern_symbol.no_return {
                            return Some(new_state);
                        }
                    }
                } else if let Some(cc) = self.project.get_standard_calling_convention() {
                    new_state.handle_unknown_function_stub(call.tid, cc);
                    return Some(new_state);
                }
            },
            _ => {},
        }
        // The call cannot be followed: the path ends here.
        None
    }

    /// The state of the caller after a call returns, from the callee's state
    /// at its return and the caller's state before the call. The caller's
    /// parameter ids gain the usage that the callee made of the arguments it
    /// was passed; caller-saved registers are forgotten; each return register
    /// receives the callee's value there in the caller's terms. Without
    /// either state, or without a standard convention, there is no state.
    pub fn update_return(
        &self,
        state: Option<&State>,
        state_before_call: Option<&State>,
        call_term: &Term<Jmp>,
    ) -> (r: Option<State>)
        ensures
            match (state, state_before_call, self.project.standard_calling_convention) {
                (Some(callee), Some(caller), Some(cc)) => r matches Some(n) && {
                    &&& n.stack_id == caller.stack_id
                    &&& forall|k: i64| #[trigger] stack_of(n, k) == stack_of(*caller, k)
                    &&& param_ids(n) == param_ids(*caller)
                    &&& forall|f: AccessFlag| #[trigger] flagged(n, f) == flagged(*caller, f).union(
                        param_ids(*caller).intersect(access_ids(
                            *caller,
                            params_prefix(*callee, callee.params@.len() as int),
                            f,
                        )),
                    )
                    &&& registers_after_call(
                        *caller,
                        n,
                        cc.callee_saved_register@,
                        return_values_spec(*caller, *callee, cc, call_term.tid),
                    )
                },
                _ => r is None,
            },
            r matches Some(n) ==> (state_before_call matches Some(c) && wf(*c) ==> wf(n)),
    {
        let (callee_state, old_state) = match (state, state_before_call) {
            (Some(c), Some(o)) => (c, o),
            _ => return None,
        };
        let calling_convention = match self.project.get_standard_calling_convention() {
            Some(cc) => cc,
            None => return None,
        };
        let mut new_state = old_state.duplicate();
        proof {
            lemma_same_state(*old_state, new_state);
        }
        // The usage of the callee's parameters becomes usage of what the caller passed.
        let parameters = callee_state.get_params_of_current_function();
        let ghost s0 = new_state;
        new_state.merge_parameter_access(&parameters);
        let ghost s1 = new_state;
        // The return values are computed before any register changes.
        let return_value_list = self.compute_return_values_of_call(
            old_state,
            callee_state,
            calling_convention,
            call_term,
        );
        new_state.clear_non_callee_saved_register(&calling_convention.callee_saved_register);
        let ghost s2 = new_state;
        new_state.set_registers(return_value_list);
        proof {
            let cc = *calling_convention;
            assert forall|r: usize| #[trigger] reg_of(s2, r) == if crate::state::in_registers(cc.callee_saved_register@, r) {
                reg_of(*old_state, r)
            } else {
                None
            } by {
                assert(reg_of(s1, r) == reg_of(s0, r));
            }
            assert forall|k: i64| #[trigger] stack_of(new_state, k) == stack_of(*old_state, k) by {
                assert(stack_of(s1, k) == stack_of(s0, k));
            }
            assert(param_ids(new_state) == param_ids(s1));
            assert forall|f: AccessFlag| #[trigger] flagged(new_state, f) == flagged(s1, f) by {}
        }
        Some(new_state)
    }

    /// The state after a branch on `condition`, on either side: the ids of
    /// the condition are read, and no value is narrowed.
    pub fn specialize_conditional(&self, state: &State, condition: &Expression, is_true: bool) -> (r: Option<State>)
        ensures
            r matches Some(n) && flagged_as(*state, n, AccessFlag::Read, expr_ids(*state, *condition)),
            r matches Some(n) ==> (wf(*state) ==> wf(n)),
    {
        let mut new_state = state.duplicate();
        proof {
            lemma_same_state(*state, new_state);
        }
        new_state.set_flag_for_input_ids_of_expression(condition, AccessFlag::Read);
        Some(new_state)
    }
}


/// The value that holds exactly the origin `(id, o)`.
pub open spec fn single(id: AbstractId, o: i64) -> ValueView {
    ValueView { relative: set![(id, o)], absolute: Set::empty(), contains_top: false }
}

/// A callee that returns its parameter `p` moved by `k`, called with `(base, c)`
/// for `p`, returns `(base, c + k)` to the caller, and nothing else.
pub proof fn lemma_return_relative_to_parameter(
    caller: State,
    callee: State,
    reg: Variable,
    call_tid: u64,
    p: AbstractId,
    k: i64,
    base: AbstractId,
    c: i64,
)
    requires
        crate::state::reg_value(callee, reg.id) == single(p, k),
        param_arg(callee, p) is Some,
        eval_arg_spec(caller, param_arg(callee, p)->Some_0) == single(base, c),
    ensures
        return_value_spec(caller, callee, reg, call_tid) == single(base, c.wrapping_add(k)),
{
    let a = param_arg(callee, p)->Some_0;
    let f = |q: (AbstractId, i64)| (q.0, q.1.wrapping_add(k));
    assert(set![(base, c)].map(f) =~= set![(base, c.wrapping_add(k))]) by {
        assert(set![(base, c)].contains((base, c)));
    }
    assert(translate(caller, callee, (p, k)) == set![(base, c.wrapping_add(k))]);
    assert(single(p, k).relative.contains((p, k)));
    assert(translated_part(caller, callee, reg) =~= set![(base, c.wrapping_add(k))]) by {
        assert forall|q: (AbstractId, i64)| translated_part(caller, callee, reg).contains(q) implies q == (base, c.wrapping_add(k)) by {
            let e = choose|e: (AbstractId, i64)| single(p, k).relative.contains(e) && #[trigger] translate(caller, callee, e).contains(q);
            assert(e == (p, k));
        }
        assert(translate(caller, callee, (p, k)).contains((base, c.wrapping_add(k))));
    }
    assert(!may_be_unknown(caller, callee, reg)) by {
        if exists|e: (AbstractId, i64)| single(p, k).relative.contains(e) && #[trigger] entry_unknown(caller, callee, e) {
            let e = choose|e: (AbstractId, i64)| single(p, k).relative.contains(e) && #[trigger] entry_unknown(caller, callee, e);
            assert(e == (p, k));
        }
    }
    assert(return_value_spec(caller, callee, reg, call_tid).relative =~= set![(base, c.wrapping_add(k))]);
}

/// A callee that returns its parameter `p` unchanged, called with `(base, c)`
/// for `p`, returns exactly `(base, c)` to the caller.
pub proof fn lemma_return_unmodified_parameter(
    caller: State,
    callee: State,
    reg: Variable,
    call_tid: u64,
    p: AbstractId,
    base: AbstractId,
    c: i64,
)
    requires
        crate::state::reg_value(callee, reg.id) == single(p, 0),
        param_arg(callee, p) is Some,
        eval_arg_spec(caller, param_arg(callee, p)->Some_0) == single(base, c),
    ensures
        return_value_spec(caller, callee, reg, call_tid) == single(base, c),
{
    lemma_return_relative_to_parameter(caller, callee, reg, call_tid, p, 0, base, c);
    assert(c.wrapping_add(0) == c);
}

/// A callee that returns a value relative to something that is none of its
/// parameters (a local allocation, say) returns to the caller only the id of
/// the call and register. Where the call is a term of its own, distinct from
/// the caller and the callee, that id is no parameter id of either, and no
/// id built for another call site or register equals it.
pub proof fn lemma_return_unrelated_to_parameters(
    caller: State,
    callee: State,
    reg: Variable,
    call_tid: u64,
    l: AbstractId,
    k: i64,
)
    requires
        wf(caller),
        wf(callee),
        call_tid != caller.stack_id.tid,
        call_tid != callee.stack_id.tid,
        crate::state::reg_value(callee, reg.id) == single(l, k),
        param_arg(callee, l) is None,
    ensures
        return_value_spec(caller, callee, reg, call_tid) == single(call_return_id(call_tid, reg), 0),
        !param_ids(caller).contains(call_return_id(call_tid, reg)),
        !param_ids(callee).contains(call_return_id(call_tid, reg)),
        forall|t: u64, r: Variable| (t, r) != (call_tid, reg) ==> #[trigger] call_return_id(t, r) != call_return_id(call_tid, reg),
{
    assert(single(l, k).relative.contains((l, k)));
    assert(entry_unknown(caller, callee, (l, k)));
    assert(translated_part(caller, callee, reg) =~= Set::empty()) by {
        assert forall|q: (AbstractId, i64)| !translated_part(caller, callee, reg).contains(q) by {
            if translated_part(caller, callee, reg).contains(q) {
                let e = choose|e: (AbstractId, i64)| single(l, k).relative.contains(e) && #[trigger] translate(caller, callee, e).contains(q);
                assert(e == (l, k));
            }
        }
    }
    assert(return_value_spec(caller, callee, reg, call_tid).relative =~= set![(call_return_id(call_tid, reg), 0i64)]);
}

} // verus!
