//! The intermediate representation that the analysis runs on, and the
//! per-target facts it consults: calling conventions, extern symbols and the
//! sizes of C data types.

use vstd::prelude::*;

verus! {

/// A register, named by its index in the target's register file, with its width in bytes.
#[derive(Clone, Copy, Debug, PartialEq, Eq, Structural)]
pub struct Variable {
    pub id: usize,
    pub size: u64,
}

/// An expression over registers.
#[derive(Debug)]
pub enum Expression {
    Var(Variable),
    Const(i64),
    /// The inner expression plus a constant.
    PlusConst(Box<Expression>, i64),
    /// An operation whose result the analysis does not model.
    BinOp(Box<Expression>, Box<Expression>),
}

/// The registers that an expression reads, in order of occurrence.
pub open spec fn expr_vars(e: Expression) -> Seq<Variable>
    decreases e,
{
    match e {
        Expression::Var(v) => seq![v],
        Expression::Const(_) => Seq::empty(),
        Expression::PlusConst(inner, _) => expr_vars(*inner),
        Expression::BinOp(a, b) => expr_vars(*a) + expr_vars(*b),
    }
}

impl Expression {
    /// The registers that the expression reads.
    pub fn input_vars(&self) -> (r: Vec<Variable>)
        ensures
            r@ == expr_vars(*self),
        decreases self,
    {
        match self {
            Expression::Var(v) => vec![*v],
            Expression::Const(_) => Vec::new(),
            Expression::PlusConst(inner, _) => inner.input_vars(),
            Expression::BinOp(a, b) => {
                let mut r = a.input_vars();
                let mut rb = b.input_vars();
                r.append(&mut rb);
                r
            },
        }
    }

    /// An equal copy of the expression.
    pub fn duplicate(&self) -> (r: Expression)
        ensures
            r == *self,
        decreases self,
    {
        match self {
            Expression::Var(v) => Expression::Var(*v),
            Expression::Const(c) => Expression::Const(*c),
            Expression::PlusConst(inner, c) => Expression::PlusConst(Box::new(inner.duplicate()), *c),
            Expression::BinOp(a, b) => Expression::BinOp(
                Box::new(a.duplicate()),
                Box::new(b.duplicate()),
            ),
        }
    }

    /// The expression plus a constant offset.
    pub fn plus_const(self, c: i64) -> (r: Expression)
        ensures
            r == Expression::PlusConst(Box::new(self), c),
    {
        Expression::PlusConst(Box::new(self), c)
    }
}

impl Clone for Expression {
    fn clone(&self) -> (r: Expression)
        ensures
            r == *self,
    {
        self.duplicate()
    }
}

/// A statement of a basic block.
#[derive(Clone, Debug)]
pub enum Def {
    /// `var := value`
    Assign { var: Variable, value: Expression },
    /// `var := [address]`
    Load { var: Variable, address: Expression },
    /// `[address] := value`
    Store { address: Expression, value: Expression },
}

/// A control-flow transfer at the end of a basic block; targets are term ids.
#[derive(Clone, Debug)]
pub enum Jmp {
    Branch(u64),
    BranchInd(Expression),
    CBranch { target: u64, condition: Expression },
    Call { target: u64, return_: Option<u64> },
    CallInd { target: Expression, return_: Option<u64> },
    Return(Expression),
}

/// A term of the program together with its unique term id.
#[derive(Clone, Debug)]
pub struct Term<T> {
    pub tid: u64,
    pub term: T,
}

/// The C data types that a format specifier can ask for.
#[derive(Clone, Copy, Debug, PartialEq, Eq, Structural)]
pub enum Datatype {
    Char,
    Double,
    Integer,
    Long,
    LongDouble,
    LongLong,
    Pointer,
}

/// Where an argument of a call is passed.
#[derive(Clone, Debug)]
pub enum Arg {
    Register { expr: Expression, data_type: Option<Datatype> },
    Stack { address: Expression, size: u64, data_type: Option<Datatype> },
}

impl Arg {
    /// An equal copy of the argument.
    pub fn duplicate(&self) -> (r: Arg)
        ensures
            r == *self,
    {
        match self {
            Arg::Register { expr, data_type } => Arg::Register {
                expr: expr.duplicate(),
                data_type: *data_type,
            },
            Arg::Stack { address, size, data_type } => Arg::Stack {
                address: address.duplicate(),
                size: *size,
                data_type: *data_type,
            },
        }
    }
}

/// The size in bytes of each C data type on a target.
#[derive(Clone, Copy, Debug, PartialEq, Eq, Structural)]
pub struct DatatypeProperties {
    pub char_size: u64,
    pub double_size: u64,
    pub float_size: u64,
    pub integer_size: u64,
    pub long_double_size: u64,
    pub long_long_size: u64,
    pub long_size: u64,
    pub pointer_size: u64,
    pub short_size: u64,
}

pub open spec fn size_of(p: DatatypeProperties, d: Datatype) -> u64 {
    match d {
        Datatype::Char => p.char_size,
        Datatype::Double => p.double_size,
        Datatype::Integer => p.integer_size,
        Datatype::Long => p.long_size,
        Datatype::LongDouble => p.long_double_size,
        Datatype::LongLong => p.long_long_size,
        Datatype::Pointer => p.pointer_size,
    }
}

impl DatatypeProperties {
    /// The size of a value of the given type.
    pub fn get_size_from_data_type(&self, data_type: Datatype) -> (r: u64)
        ensures
            r == size_of(*self, data_type),
    {
        match data_type {
            Datatype::Char => self.char_size,
            Datatype::Double => self.double_size,
            Datatype::Integer => self.integer_size,
            Datatype::Long => self.long_size,
            Datatype::LongDouble => self.long_double_size,
            Datatype::LongLong => self.long_long_size,
            Datatype::Pointer => self.pointer_size,
        }
    }
}

/// Which registers carry parameters and return values, and which survive a call.
#[derive(Clone, Debug)]
pub struct CallingConvention {
    pub integer_parameter_register: Vec<Variable>,
    pub float_parameter_register: Vec<Expression>,
    pub integer_return_register: Vec<Variable>,
    pub float_return_register: Vec<Expression>,
    pub callee_saved_register: Vec<Variable>,
}

/// The registers that the expressions read, one expression after the other.
pub open spec fn vars_of_exprs(es: Seq<Expression>) -> Seq<Variable>
    decreases es.len(),
{
    if es.len() == 0 {
        Seq::empty()
    } else {
        vars_of_exprs(es.drop_last()) + expr_vars(es.last())
    }
}

/// All return registers of a convention: the integer ones, then those that the
/// float return expressions read.
pub open spec fn return_registers_of(c: CallingConvention) -> Seq<Variable> {
    c.integer_return_register@ + vars_of_exprs(c.float_return_register@)
}

/// The parameter locations of a convention as register arguments: the integer
/// registers, then the float expressions.
pub open spec fn parameter_args_of(c: CallingConvention) -> Seq<Arg> {
    c.integer_parameter_register@.map_values(
        |v: Variable| Arg::Register { expr: Expression::Var(v), data_type: None },
    ) + c.float_parameter_register@.map_values(
        |e: Expression| Arg::Register { expr: e, data_type: None },
    )
}

/// All parameter registers of a convention: the integer ones, then those that
/// the float parameter expressions read.
pub open spec fn parameter_registers_of(c: CallingConvention) -> Seq<Variable> {
    c.integer_parameter_register@ + vars_of_exprs(c.float_parameter_register@)
}

/// The registers of `regs`, then those that the expressions read.
fn extend_with_vars(regs: &Vec<Variable>, exprs: &Vec<Expression>) -> (r: Vec<Variable>)
    ensures
        r@ == regs@ + vars_of_exprs(exprs@),
{
    let mut r: Vec<Variable> = Vec::new();
    let mut i: usize = 0;
    while i < regs.len()
        invariant
            i <= regs@.len(),
            r@ == regs@.take(i as int),
        decreases regs@.len() - i,
    {
        r.push(regs[i]);
        i = i + 1;
        assert(r@ =~= regs@.take(i as int));
    }
    assert(regs@.take(i as int) =~= regs@);
    let mut j: usize = 0;
    assert(exprs@.take(0) =~= Seq::<Expression>::empty());
    while j < exprs.len()
        invariant
            j <= exprs@.len(),
            r@ == regs@ + vars_of_exprs(exprs@.take(j as int)),
        decreases exprs@.len() - j,
    {
        let mut vars = exprs[j].input_vars();
        r.append(&mut vars);
        assert(exprs@.take(j + 1).drop_last() =~= exprs@.take(j as int));
        assert(r@ =~= regs@ + vars_of_exprs(exprs@.take(j + 1)));
        j = j + 1;
    }
    assert(exprs@.take(j as int) =~= exprs@);
    r
}

impl CallingConvention {
    /// All parameter registers of the convention.
    pub fn parameter_registers(&self) -> (r: Vec<Variable>)
        ensures
            r@ == parameter_registers_of(*self),
    {
        extend_with_vars(&self.integer_parameter_register, &self.float_parameter_register)
    }

    /// All return registers of the convention.
    pub fn return_registers(&self) -> (r: Vec<Variable>)
        ensures
            r@ == return_registers_of(*self),
    {
        extend_with_vars(&self.integer_return_register, &self.float_return_register)
    }

    /// The parameter registers of the convention as register arguments.
    pub fn parameter_args(&self) -> (r: Vec<Arg>)
        ensures
            r@ == parameter_args_of(*self),
    {
        let mut r: Vec<Arg> = Vec::new();
        let mut i: usize = 0;
        let n = self.integer_parameter_register.len();
        while i < n
            invariant
                n == self.integer_parameter_register@.len(),
                i <= n,
                r@ == self.integer_parameter_register@.take(i as int).map_values(
                    |v: Variable| Arg::Register { expr: Expression::Var(v), data_type: None },
                ),
            decreases n - i,
        {
            r.push(Arg::Register { expr: Expression::Var(self.integer_parameter_register[i]), data_type: None });
            i = i + 1;
            assert(r@ =~= self.integer_parameter_register@.take(i as int).map_values(
                |v: Variable| Arg::Register { expr: Expression::Var(v), data_type: None },
            ));
        }
        assert(self.integer_parameter_register@.take(i as int) =~= self.integer_parameter_register@);
        let ghost first = r@;
        let mut j: usize = 0;
        let m = self.float_parameter_register.len();
        while j < m
            invariant
                m == self.float_parameter_register@.len(),
                j <= m,
                r@ == first + self.float_parameter_register@.take(j as int).map_values(
                    |e: Expression| Arg::Register { expr: e, data_type: None },
                ),
            decreases m - j,
        {
            r.push(Arg::Register { expr: self.float_parameter_register[j].duplicate(), data_type: None });
            j = j + 1;
            assert(r@ =~= first + self.float_parameter_register@.take(j as int).map_values(
                |e: Expression| Arg::Register { expr: e, data_type: None },
            ));
        }
        assert(self.float_parameter_register@.take(j as int) =~= self.float_parameter_register@);
        r
    }
}

/// A function that the binary imports.
#[derive(Clone, Debug)]
pub struct ExternSymbol {
    pub tid: u64,
    pub name: String,
    /// The symbol's own calling convention, where it differs from the standard one.
    pub calling_convention: Option<CallingConvention>,
    pub parameters: Vec<Arg>,
    pub no_return: bool,
}

/// The processor family of the binary.
#[derive(Clone, Copy, Debug, PartialEq, Eq, Structural)]
pub enum CpuArchitecture {
    X86,
    X86_32,
    X86_64,
    Arm,
    Aarch64,
    Mips,
    Mips64,
    PowerPc,
    PowerPc64,
}

/// Whether a call pushes its return address onto the stack.
pub open spec fn pushes_return_address(arch: CpuArchitecture) -> bool {
    arch == CpuArchitecture::X86 || arch == CpuArchitecture::X86_32 || arch
        == CpuArchitecture::X86_64
}

/// The facts about a binary that the analysis looks up.
#[derive(Clone, Debug)]
pub struct Project {
    pub cpu_architecture: CpuArchitecture,
    pub stack_pointer_register: Variable,
    pub standard_calling_convention: Option<CallingConvention>,
    pub extern_symbols: Vec<ExternSymbol>,
    pub datatype_properties: DatatypeProperties,
}

/// The index of the first extern symbol of the project declared at term `tid`.
pub open spec fn is_first_symbol_at(p: Project, tid: u64, i: int) -> bool {
    &&& 0 <= i < p.extern_symbols@.len()
    &&& p.extern_symbols@[i].tid == tid
    &&& forall|k: int| 0 <= k < i ==> p.extern_symbols@[k].tid != tid
}

/// The first extern symbol declared at term `tid`, if the project declares one.
pub open spec fn extern_symbol_at(p: Project, tid: u64) -> Option<ExternSymbol> {
    if exists|i: int| is_first_symbol_at(p, tid, i) {
        Some(p.extern_symbols@[choose|i: int| is_first_symbol_at(p, tid, i)])
    } else {
        None
    }
}

/// `r` refers to the content of `o`, or both are empty.
pub open spec fn refers_to_option(r: Option<&CallingConvention>, o: Option<CallingConvention>) -> bool {
    match r {
        Some(c) => o == Some(*c),
        None => o is None,
    }
}

impl Project {
    /// The calling convention that functions of the binary follow by default.
    pub fn get_standard_calling_convention(&self) -> (r: Option<&CallingConvention>)
        ensures
            refers_to_option(r, self.standard_calling_convention),
    {
        self.standard_calling_convention.as_ref()
    }

    /// The calling convention of an extern symbol: its own, else the standard one.
    pub fn get_calling_convention<'a>(&'a self, symbol: &'a ExternSymbol) -> (r: Option<
        &'a CallingConvention,
    >)
        ensures
            refers_to_option(
                r,
                if symbol.calling_convention is Some {
                    symbol.calling_convention
                } else {
                    self.standard_calling_convention
                },
            ),
    {
        match &symbol.calling_convention {
            Some(c) => Some(c),
            None => self.standard_calling_convention.as_ref(),
        }
    }

    /// The extern symbol declared at term `tid`.
    pub fn get_extern_symbol(&self, tid: u64) -> (r: Option<&ExternSymbol>)
        ensures
            match r {
                Some(s) => extern_symbol_at(*self, tid) == Some(*s),
                None => extern_symbol_at(*self, tid) is None,
            },
    {
        let mut i: usize = 0;
        while i < self.extern_symbols.len()
            invariant
                i <= self.extern_symbols@.len(),
                forall|k: int| 0 <= k < i ==> self.extern_symbols@[k].tid != tid,
            decreases self.extern_symbols@.len() - i,
        {
            if self.extern_symbols[i].tid == tid {
                proof {
                    assert(is_first_symbol_at(*self, tid, i as int));
                    let c = choose|c: int| is_first_symbol_at(*self, tid, c);
                    if c < i {
                        assert(self.extern_symbols@[c].tid != tid);
                    }
                    if c > i {
                        assert(self.extern_symbols@[i as int].tid != tid);
                    }
                }
                return Some(&self.extern_symbols[i]);
            }
            i = i + 1;
        }
        None
    }
}

/// The calling convention that applies to an extern symbol.
pub open spec fn convention_of(p: Project, s: ExternSymbol) -> Option<CallingConvention> {
    if s.calling_convention is Some {
        s.calling_convention
    } else {
        p.standard_calling_convention
    }
}

} // verus!
