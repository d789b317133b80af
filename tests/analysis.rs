use fn_signature::context::Context;
use fn_signature::domain::{AbstractId, Location, Value};
use fn_signature::ir::{
    Arg, CallingConvention, CpuArchitecture, Datatype, DatatypeProperties, Def, Expression,
    ExternSymbol, Jmp, Project, Term, Variable,
};
use fn_signature::state::{AccessPattern, State};

const RDI: Variable = Variable { id: 0, size: 8 };
const RSI: Variable = Variable { id: 1, size: 8 };
const RDX: Variable = Variable { id: 2, size: 8 };
const RAX: Variable = Variable { id: 6, size: 8 };
const RSP: Variable = Variable { id: 7, size: 8 };
const RBX: Variable = Variable { id: 8, size: 8 };
const XMM0: Variable = Variable { id: 9, size: 16 };

fn cconv() -> CallingConvention {
    CallingConvention {
        integer_parameter_register: vec![RDI, RSI, RDX],
        float_parameter_register: vec![Expression::Var(XMM0)],
        integer_return_register: vec![RAX],
        float_return_register: vec![],
        callee_saved_register: vec![RBX, RSP],
    }
}

fn properties() -> DatatypeProperties {
    DatatypeProperties {
        char_size: 1,
        double_size: 8,
        float_size: 4,
        integer_size: 4,
        long_double_size: 16,
        long_long_size: 8,
        long_size: 8,
        pointer_size: 8,
        short_size: 2,
    }
}

fn project(symbols: Vec<ExternSymbol>) -> Project {
    Project {
        cpu_architecture: CpuArchitecture::X86_64,
        stack_pointer_register: RSP,
        standard_calling_convention: Some(cconv()),
        extern_symbols: symbols,
        datatype_properties: properties(),
    }
}

fn param_id(tid: u64, v: Variable) -> AbstractId {
    AbstractId { tid, location: Location::Register(v) }
}

fn access(state: &State, id: AbstractId) -> AccessPattern {
    state.params.iter().find(|(i, _)| *i == id).map(|(_, a)| *a).unwrap()
}

fn call(tid: u64) -> Term<Jmp> {
    Term { tid, term: Jmp::Call { target: 999, return_: Some(tid + 1) } }
}

fn var(v: Variable) -> Expression {
    Expression::Var(v)
}

fn plus(e: Expression, c: i64) -> Expression {
    Expression::PlusConst(Box::new(e), c)
}

fn relative_set(v: &Value) -> Vec<(AbstractId, i64)> {
    let mut r = v.relative.clone();
    r.sort_by_key(|(id, o)| (id.tid, format!("{:?}", id.location), *o));
    r.dedup();
    r
}

#[test]
fn entry_state_names_parameters() {
    let s = State::new(100, &RSP, &cconv());
    assert_eq!(s.params.len(), 4);
    assert_eq!(relative_set(&s.get_register(&RDI)), vec![(param_id(100, RDI), 0)]);
    assert_eq!(relative_set(&s.get_register(&RSP)), vec![(param_id(100, RSP), 0)]);
    assert!(s.get_register(&RAX).contains_top);
}

#[test]
fn merge_unites_values_and_flags() {
    let p = project(vec![]);
    let ctx = Context::new(&p);
    let mut a = State::new(100, &RSP, &cconv());
    let mut b = State::new(100, &RSP, &cconv());
    a.set_register(&RAX, Value::from_target(param_id(100, RDI), 0));
    b.set_register(&RAX, Value::from_target(param_id(100, RSI), 4));
    b.set_register(&RBX, Value::from_absolute(7));
    let b = ctx.update_jump(&b, &Term { tid: 5, term: Jmp::Return(var(RSI)) }).unwrap();
    let ab = ctx.merge(&a, &b);
    let ba = ctx.merge(&b, &a);
    let expected = vec![(param_id(100, RDI), 0), (param_id(100, RSI), 4)];
    assert_eq!(relative_set(&ab.get_register(&RAX)), expected);
    assert_eq!(relative_set(&ba.get_register(&RAX)), expected);
    // known on one side only: unknown after the merge
    assert!(ab.get_register(&RBX).contains_top);
    assert!(access(&ab, param_id(100, RSI)).read);
    assert!(access(&ba, param_id(100, RSI)).read);
    assert!(!access(&ab, param_id(100, RDI)).read);
    // merging with itself changes nothing
    let aa = ctx.merge(&a, &a);
    assert_eq!(relative_set(&aa.get_register(&RAX)), vec![(param_id(100, RDI), 0)]);
    assert_eq!(aa.get_register(&RAX).relative.len(), 1);
}

#[test]
fn return_of_unmodified_parameter() {
    let p = project(vec![]);
    let ctx = Context::new(&p);
    let mut callee = State::new(100, &RSP, &cconv());
    let rdi_value = callee.get_register(&RDI);
    callee.set_register(&RAX, rdi_value);
    let mut caller = State::new(200, &RSP, &cconv());
    caller.set_register(&RDI, Value::from_target(param_id(200, RSI), 8));
    let r = ctx.compute_return_register_value_of_call(&caller, &callee, &RAX, &call(300));
    assert_eq!(relative_set(&r), vec![(param_id(200, RSI), 8)]);
    assert!(r.absolute.is_empty());
    assert!(!r.contains_top);
}

#[test]
fn return_relative_to_parameter_composes_offsets() {
    let p = project(vec![]);
    let ctx = Context::new(&p);
    let mut callee = State::new(100, &RSP, &cconv());
    let v = callee.eval(&plus(var(RDI), 4));
    callee.set_register(&RAX, v);
    let mut caller = State::new(200, &RSP, &cconv());
    caller.set_register(&RDI, Value::from_target(param_id(200, RSI), 8));
    let r = ctx.compute_return_register_value_of_call(&caller, &callee, &RAX, &call(300));
    assert_eq!(relative_set(&r), vec![(param_id(200, RSI), 12)]);
    assert!(!r.contains_top);
}

#[test]
fn return_of_local_allocation_is_fresh_per_call_site() {
    let p = project(vec![]);
    let ctx = Context::new(&p);
    let mut callee = State::new(100, &RSP, &cconv());
    let v = callee.eval(&plus(var(RSP), -16));
    callee.set_register(&RAX, v);
    let caller = State::new(200, &RSP, &cconv());
    let r1 = ctx.compute_return_register_value_of_call(&caller, &callee, &RAX, &call(300));
    let r2 = ctx.compute_return_register_value_of_call(&caller, &callee, &RAX, &call(400));
    assert_eq!(relative_set(&r1), vec![(param_id(300, RAX), 0)]);
    assert_eq!(relative_set(&r2), vec![(param_id(400, RAX), 0)]);
    assert_ne!(r1.relative[0].0, r2.relative[0].0);
    assert!(caller.params.iter().all(|(id, _)| *id != r1.relative[0].0));
}

#[test]
fn return_of_absolute_value_gets_call_id() {
    let p = project(vec![]);
    let ctx = Context::new(&p);
    let mut callee = State::new(100, &RSP, &cconv());
    callee.set_register(&RAX, Value::from_absolute(42));
    let caller = State::new(200, &RSP, &cconv());
    let r = ctx.compute_return_register_value_of_call(&caller, &callee, &RAX, &call(300));
    assert_eq!(relative_set(&r), vec![(param_id(300, RAX), 0)]);
    assert!(r.absolute.is_empty());
}

#[test]
fn stack_store_of_bare_register_is_no_read() {
    let p = project(vec![]);
    let ctx = Context::new(&p);
    let s = State::new(100, &RSP, &cconv());
    let def = Term { tid: 1, term: Def::Store { address: plus(var(RSP), -8), value: var(RDI) } };
    let n = ctx.update_def(&s, &def).unwrap();
    assert_eq!(access(&n, param_id(100, RDI)), AccessPattern { read: false, dereferenced: false, mutably_dereferenced: false });
    // the slot now holds the value of RDI
    let loaded = n.load_value(&n.eval(&plus(var(RSP), -8)));
    assert_eq!(relative_set(&loaded), vec![(param_id(100, RDI), 0)]);
}

#[test]
fn stack_store_of_computed_value_reads() {
    let p = project(vec![]);
    let ctx = Context::new(&p);
    let s = State::new(100, &RSP, &cconv());
    let def = Term { tid: 1, term: Def::Store { address: plus(var(RSP), -8), value: plus(var(RDI), 1) } };
    let n = ctx.update_def(&s, &def).unwrap();
    assert!(access(&n, param_id(100, RDI)).read);
    assert!(!access(&n, param_id(100, RDI)).mutably_dereferenced);
}

#[test]
fn store_through_parameter_dereferences_mutably() {
    let p = project(vec![]);
    let ctx = Context::new(&p);
    let s = State::new(100, &RSP, &cconv());
    let def = Term { tid: 1, term: Def::Store { address: var(RDI), value: var(RSI) } };
    let n = ctx.update_def(&s, &def).unwrap();
    assert!(access(&n, param_id(100, RDI)).mutably_dereferenced);
    assert!(!access(&n, param_id(100, RDI)).read);
    assert!(access(&n, param_id(100, RSI)).read);
}

#[test]
fn load_dereferences_and_assign_reads() {
    let p = project(vec![]);
    let ctx = Context::new(&p);
    let s = State::new(100, &RSP, &cconv());
    let load = Term { tid: 1, term: Def::Load { var: RAX, address: var(RDI) } };
    let n = ctx.update_def(&s, &load).unwrap();
    assert!(access(&n, param_id(100, RDI)).dereferenced);
    assert!(!access(&n, param_id(100, RDI)).read);
    assert!(n.get_register(&RAX).contains_top);
    let assign = Term { tid: 2, term: Def::Assign { var: RAX, value: plus(var(RSI), 3) } };
    let m = ctx.update_def(&n, &assign).unwrap();
    assert!(access(&m, param_id(100, RSI)).read);
    assert_eq!(relative_set(&m.get_register(&RAX)), vec![(param_id(100, RSI), 3)]);
}

#[test]
fn call_entry_carries_no_state() {
    let p = project(vec![]);
    let ctx = Context::new(&p);
    let mut s = State::new(100, &RSP, &cconv());
    s.set_register(&RDI, Value::from_absolute(5));
    assert!(ctx.update_call(&s, &call(300)).is_none());
    assert!(ctx.update_call(&State::new(7, &RSP, &cconv()), &call(301)).is_none());
}

#[test]
fn conditional_reads_condition_on_both_sides() {
    let p = project(vec![]);
    let ctx = Context::new(&p);
    let s = State::new(100, &RSP, &cconv());
    for taken in [true, false] {
        let n = ctx.specialize_conditional(&s, &var(RDX), taken).unwrap();
        assert!(access(&n, param_id(100, RDX)).read);
        assert!(!access(&n, param_id(100, RDI)).read);
    }
}

#[test]
fn return_transfer_keeps_callee_saved_and_installs_return() {
    let p = project(vec![]);
    let ctx = Context::new(&p);
    let mut callee = State::new(100, &RSP, &cconv());
    let callee = {
        let v = callee.eval(&plus(var(RDI), 4));
        callee.set_register(&RAX, v);
        ctx.update_def(&callee, &Term { tid: 1, term: Def::Load { var: RDX, address: var(RDI) } }).unwrap()
    };
    let mut caller = State::new(200, &RSP, &cconv());
    caller.set_register(&RDI, Value::from_target(param_id(200, RSI), 8));
    caller.set_register(&RBX, Value::from_absolute(9));
    let n = ctx.update_return(Some(&callee), Some(&caller), &call(300)).unwrap();
    assert_eq!(relative_set(&n.get_register(&RAX)), vec![(param_id(200, RSI), 12)]);
    assert_eq!(n.get_register(&RBX).absolute, vec![9]);
    assert!(n.get_register(&RDI).contains_top);
    // the callee dereferenced its first parameter: the caller's RSI value was passed there
    assert!(access(&n, param_id(200, RSI)).dereferenced);
    assert!(ctx.update_return(None, Some(&caller), &call(300)).is_none());
    assert!(ctx.update_return(Some(&callee), None, &call(300)).is_none());
}

#[test]
fn call_stub_for_extern_and_unknown_targets() {
    let exit = ExternSymbol {
        tid: 50,
        name: "exit".to_string(),
        calling_convention: None,
        parameters: vec![Arg::Register { expr: var(RDI), data_type: None }],
        no_return: true,
    };
    let puts = ExternSymbol {
        tid: 51,
        name: "puts".to_string(),
        calling_convention: None,
        parameters: vec![Arg::Register { expr: var(RDI), data_type: Some(Datatype::Pointer) }],
        no_return: false,
    };
    let p = project(vec![exit, puts]);
    let ctx = Context::new(&p);
    let s = State::new(100, &RSP, &cconv());
    let to_exit = Term { tid: 10, term: Jmp::Call { target: 50, return_: None } };
    assert!(ctx.update_call_stub(&s, &to_exit).is_none());
    let to_puts = Term { tid: 11, term: Jmp::Call { target: 51, return_: Some(12) } };
    let n = ctx.update_call_stub(&s, &to_puts).unwrap();
    assert!(access(&n, param_id(100, RDI)).read);
    assert!(access(&n, param_id(100, RDI)).dereferenced);
    assert!(!access(&n, param_id(100, RSI)).read);
    assert_eq!(relative_set(&n.get_register(&RAX)), vec![(param_id(11, RAX), 0)]);
    let indirect = Term { tid: 13, term: Jmp::CallInd { target: var(RDX), return_: Some(14) } };
    let m = ctx.update_call_stub(&s, &indirect).unwrap();
    assert!(access(&m, param_id(100, RDX)).read);
    assert!(access(&m, param_id(100, RSI)).read);
    assert_eq!(relative_set(&m.get_register(&RAX)), vec![(param_id(13, RAX), 0)]);
    let mut bare = project(vec![]);
    bare.standard_calling_convention = None;
    let ctx2 = Context::new(&bare);
    assert!(ctx2.update_call_stub(&s, &indirect).is_none());
}
