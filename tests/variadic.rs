use fn_signature::arguments::{
    calculate_parameter_locations, create_register_arg, create_stack_arg, datatype_of_specifier,
    datatypes_of_specifiers, get_input_format_string, get_variable_parameters,
    parse_format_string_destination_and_return_content, parse_format_string_parameters,
    ArgumentError, MemoryImage,
};
use fn_signature::domain::Value;
use fn_signature::ir::{
    Arg, CallingConvention, CpuArchitecture, Datatype, DatatypeProperties, Expression,
    ExternSymbol, Project, Variable,
};
use fn_signature::state::State;

const RDI: Variable = Variable { id: 0, size: 8 };
const RSI: Variable = Variable { id: 1, size: 8 };
const RDX: Variable = Variable { id: 2, size: 8 };
const RAX: Variable = Variable { id: 6, size: 8 };
const RSP: Variable = Variable { id: 7, size: 8 };
const XMM0: Variable = Variable { id: 9, size: 16 };

fn cconv() -> CallingConvention {
    CallingConvention {
        integer_parameter_register: vec![RDI, RSI, RDX],
        float_parameter_register: vec![Expression::Var(XMM0)],
        integer_return_register: vec![RAX],
        float_return_register: vec![],
        callee_saved_register: vec![RSP],
    }
}

fn properties() -> DatatypeProperties {
    DatatypeProperties {
        char_size: 1,
        double_size: 8,
        float_size: 4,
        integer_size: 4,
        long_double_size: 16,
        long_long_size: 8,
        long_size: 8,
        pointer_size: 8,
        short_size: 2,
    }
}

fn project(arch: CpuArchitecture) -> Project {
    Project {
        cpu_architecture: arch,
        stack_pointer_register: RSP,
        standard_calling_convention: Some(cconv()),
        extern_symbols: vec![],
        datatype_properties: properties(),
    }
}

fn printf() -> ExternSymbol {
    ExternSymbol {
        tid: 50,
        name: "printf".to_string(),
        calling_convention: None,
        parameters: vec![Arg::Register { expr: Expression::Var(RDI), data_type: Some(Datatype::Pointer) }],
        no_return: false,
    }
}

fn image(text: &str) -> MemoryImage {
    let mut bytes = vec![0xffu8; 16];
    bytes.extend_from_slice(text.as_bytes());
    bytes.push(0);
    MemoryImage { base: 0x1000, bytes }
}

fn call_site_state(address: i64) -> State {
    let mut s = State::new(100, &RSP, &cconv());
    s.set_register(&RDI, Value::from_absolute(address));
    s
}

fn register_of(a: &Arg) -> Option<(usize, Option<Datatype>)> {
    match a {
        Arg::Register { expr: Expression::Var(v), data_type } => Some((v.id, *data_type)),
        _ => None,
    }
}

fn stack_of(a: &Arg) -> Option<(usize, i64, u64, Option<Datatype>)> {
    match a {
        Arg::Stack { address, size, data_type } => match address {
            Expression::PlusConst(inner, o) => match inner.as_ref() {
                Expression::Var(v) => Some((v.id, *o, *size, *data_type)),
                _ => None,
            },
            _ => None,
        },
        _ => None,
    }
}

#[test]
fn integer_string_and_double_take_registers() {
    let p = project(CpuArchitecture::X86_64);
    let map = vec![("printf".to_string(), 0usize)];
    let args = get_variable_parameters(&p, &call_site_state(0x1010), &printf(), &map, &image("%d %s %f")).unwrap();
    assert_eq!(args.len(), 3);
    assert_eq!(register_of(&args[0]), Some((RSI.id, Some(Datatype::Integer))));
    assert_eq!(register_of(&args[1]), Some((RDX.id, Some(Datatype::Pointer))));
    assert_eq!(register_of(&args[2]), Some((XMM0.id, Some(Datatype::Double))));
}

#[test]
fn long_specifier_is_unsupported() {
    assert_eq!(parse_format_string_parameters(&b"%ld".to_vec(), &properties()), Err(ArgumentError::UnsupportedDatatype));
    assert_eq!(parse_format_string_parameters(&b"%d %lld".to_vec(), &properties()), Err(ArgumentError::UnsupportedDatatype));
    assert_eq!(parse_format_string_parameters(&b"%Lf".to_vec(), &properties()), Err(ArgumentError::UnsupportedDatatype));
    let p = project(CpuArchitecture::X86_64);
    let map = vec![("printf".to_string(), 0usize)];
    let r = get_variable_parameters(&p, &call_site_state(0x1010), &printf(), &map, &image("%ld"));
    assert_eq!(r.err(), Some(ArgumentError::UnsupportedDatatype));
}

#[test]
fn char_is_promoted_to_int_size() {
    assert_eq!(parse_format_string_parameters(&b"%c".to_vec(), &properties()), Ok(vec![(Datatype::Char, 4)]));
}

#[test]
fn specifiers_with_width_and_modifiers() {
    let r = parse_format_string_parameters(&b"x=%02x p=%p %hd %lf %10s %%".to_vec(), &properties()).unwrap();
    assert_eq!(
        r,
        vec![
            (Datatype::Integer, 4),
            (Datatype::Pointer, 8),
            (Datatype::Integer, 4),
            (Datatype::Double, 8),
            (Datatype::Pointer, 8),
        ]
    );
    assert_eq!(parse_format_string_parameters(&b"no specifiers".to_vec(), &properties()), Ok(vec![]));
}

#[test]
fn specifier_texts_map_to_datatypes() {
    assert_eq!(datatype_of_specifier(&b"%d".to_vec()), Some(Datatype::Integer));
    assert_eq!(datatype_of_specifier(&b"%12lld".to_vec()), Some(Datatype::LongLong));
    assert_eq!(datatype_of_specifier(&b"%LG".to_vec()), Some(Datatype::LongDouble));
    assert_eq!(datatype_of_specifier(&b"%q".to_vec()), None);
    assert_eq!(datatype_of_specifier(&b"d".to_vec()), None);
    let texts = vec![b"%c".to_vec(), b"%e".to_vec()];
    assert_eq!(datatypes_of_specifiers(&texts, &properties()), Ok(vec![(Datatype::Char, 4), (Datatype::Double, 8)]));
    let bad = vec![b"%d".to_vec(), b"%y".to_vec()];
    assert_eq!(datatypes_of_specifiers(&bad, &properties()), Err(ArgumentError::UnknownSpecifier));
}

#[test]
fn one_location_per_specifier_with_stack_spill() {
    let p = project(CpuArchitecture::X86_64);
    let map = vec![("printf".to_string(), 0usize)];
    let text = "%d %d %c %f %f %s";
    let args = get_variable_parameters(&p, &call_site_state(0x1010), &printf(), &map, &image(text)).unwrap();
    let specs = parse_format_string_parameters(&text.as_bytes().to_vec(), &properties()).unwrap();
    assert_eq!(args.len(), specs.len());
    assert_eq!(args.len(), 6);
    assert_eq!(register_of(&args[0]), Some((RSI.id, Some(Datatype::Integer))));
    assert_eq!(register_of(&args[1]), Some((RDX.id, Some(Datatype::Integer))));
    // past the return address of x86-64: 8 bytes
    assert_eq!(stack_of(&args[2]), Some((RSP.id, 8, 4, Some(Datatype::Char))));
    assert_eq!(register_of(&args[3]), Some((XMM0.id, Some(Datatype::Double))));
    assert_eq!(stack_of(&args[4]), Some((RSP.id, 12, 8, Some(Datatype::Double))));
    assert_eq!(stack_of(&args[5]), Some((RSP.id, 20, 8, Some(Datatype::Pointer))));
}

#[test]
fn stack_starts_at_zero_without_return_address() {
    let params = vec![(Datatype::Integer, 4), (Datatype::Integer, 4), (Datatype::Pointer, 8)];
    let args = calculate_parameter_locations(params, &cconv(), 1, &RSP, CpuArchitecture::Arm);
    assert_eq!(args.len(), 3);
    assert_eq!(register_of(&args[0]), Some((RDX.id, Some(Datatype::Integer))));
    assert_eq!(stack_of(&args[1]), Some((RSP.id, 0, 4, Some(Datatype::Integer))));
    assert_eq!(stack_of(&args[2]), Some((RSP.id, 4, 8, Some(Datatype::Pointer))));
}

#[test]
fn argument_builders() {
    let s = create_stack_arg(4, -12, Datatype::Integer, &RSP);
    assert_eq!(stack_of(&s), Some((RSP.id, -12, 4, Some(Datatype::Integer))));
    let r = create_register_arg(Expression::Var(RSI), Datatype::Pointer);
    assert_eq!(register_of(&r), Some((RSI.id, Some(Datatype::Pointer))));
}

#[test]
fn format_string_read_from_memory() {
    let img = image("%s");
    assert_eq!(parse_format_string_destination_and_return_content(0x1010, &img), Ok(b"%s".to_vec()));
    assert_eq!(parse_format_string_destination_and_return_content(0x0fff, &img), Err(ArgumentError::AddressNotMapped));
    assert_eq!(parse_format_string_destination_and_return_content(0x2000, &img), Err(ArgumentError::AddressNotMapped));
    let unterminated = MemoryImage { base: 0x1000, bytes: b"%d".to_vec() };
    assert_eq!(parse_format_string_destination_and_return_content(0x1000, &unterminated), Err(ArgumentError::UnterminatedString));
    let long = MemoryImage { base: 0, bytes: vec![b'a'; 5000] };
    assert_eq!(parse_format_string_destination_and_return_content(0, &long), Err(ArgumentError::UnterminatedString));
}

#[test]
fn format_string_address_must_be_constant() {
    let img = image("%d");
    assert_eq!(get_input_format_string(&call_site_state(0x1010), &printf(), 0, &img), Ok(b"%d".to_vec()));
    assert_eq!(get_input_format_string(&call_site_state(0x1010), &printf(), 1, &img), Err(ArgumentError::NoFormatStringParameter));
    let unknown = State::new(100, &RSP, &cconv());
    assert_eq!(get_input_format_string(&unknown, &printf(), 0, &img), Err(ArgumentError::FormatStringNotInGlobalMemory));
    let mut two = State::new(100, &RSP, &cconv());
    two.set_register(&RDI, Value::from_absolute(0x1010).merge(&Value::from_absolute(0x1011)));
    assert_eq!(get_input_format_string(&two, &printf(), 0, &img), Err(ArgumentError::FormatStringNotInGlobalMemory));
}
