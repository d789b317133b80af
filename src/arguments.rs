//! The locations of the implicit arguments of variadic calls such as
//! `sprintf`: the format string is read from the binary's memory, its
//! conversion specifiers are recognised, and each is assigned a register or a
//! stack slot by the calling convention.

use vstd::prelude::*;
use crate::domain::Value;
use crate::ir::{
    Arg, CallingConvention, CpuArchitecture, Datatype, DatatypeProperties, Expression, ExternSymbol,
    Project, Variable, convention_of, pushes_return_address, size_of,
};
use crate::state::{State, eval_arg_spec};

verus! {

/// The longest format string that is read from memory, terminator excluded.
pub const MAX_FORMAT_STRING_LEN: usize = 4096;

/// The recogniser of conversion specifiers: `%`, at most two width digits,
/// and a conversion with its length modifier.
pub const FORMAT_SPECIFIER_PATTERN: &'static str = "(?-u)%[0-9]{0,2}([cCdiouxXeEfFgGaAnpsS]|hi|hd|hu|li|ld|lu|lli|lld|llu|lf|lg|le|la|lF|lG|lE|lA|Lf|Lg|Le|La|LF|LG|LE|LA)";

/// Why no argument locations could be computed.
#[derive(Clone, Copy, Debug, PartialEq, Eq, Structural)]
pub enum ArgumentError {
    /// The symbol declares no parameter at the format string's index.
    NoFormatStringParameter,
    /// The format string's address is not a single known constant.
    FormatStringNotInGlobalMemory,
    /// The address lies outside the memory image.
    AddressNotMapped,
    /// No terminating zero byte within the memory image and the length bound.
    UnterminatedString,
    /// The specifier recogniser could not be built (never the case for the
    /// pattern of this module).
    InvalidPattern,
    /// A recognised specifier names no known conversion.
    UnknownSpecifier,
    /// A specifier asks for `long`, `long long` or `long double`, which are not supported.
    UnsupportedDatatype,
}

/// A read-only region of the binary's memory, starting at address `base`.
#[derive(Clone, Debug)]
pub struct MemoryImage {
    pub base: u64,
    pub bytes: Vec<u8>,
}

/// `n` is the length of the zero-terminated string at index `start` of `bytes`.
pub open spec fn terminated_at(bytes: Seq<u8>, start: int, n: int) -> bool {
    &&& 0 <= n < MAX_FORMAT_STRING_LEN
    &&& start + n < bytes.len()
    &&& bytes[start + n] == 0
    &&& forall|j: int| start <= j < start + n ==> #[trigger] bytes[j] != 0
}

/// The zero-terminated string at `address`, without its terminator.
pub open spec fn c_string_at(image: MemoryImage, address: u64) -> Result<Seq<u8>, ArgumentError> {
    let start = address - image.base;
    if address < image.base || start >= image.bytes@.len() {
        Err(ArgumentError::AddressNotMapped)
    } else if exists|n: int| terminated_at(image.bytes@, start, n) {
        let n = choose|n: int| terminated_at(image.bytes@, start, n);
        Ok(image.bytes@.subrange(start, start + n))
    } else {
        Err(ArgumentError::UnterminatedString)
    }
}

impl MemoryImage {
    /// Reads the zero-terminated string at `address`, up to the length bound.
    pub fn read_string_until_null_terminator(&self, address: u64) -> (r: Result<Vec<u8>, ArgumentError>)
        ensures
            match r {
                Ok(s) => c_string_at(*self, address) == Ok::<Seq<u8>, ArgumentError>(s@),
                Err(e) => c_string_at(*self, address) == Err::<Seq<u8>, ArgumentError>(e),
            },
    {
        if address < self.base || address - self.base >= self.bytes.len() as u64 {
            return Err(ArgumentError::AddressNotMapped);
        }
        let start = (address - self.base) as usize;
        let mut out: Vec<u8> = Vec::new();
        let mut i: usize = start;
        while i < self.bytes.len() && i - start < MAX_FORMAT_STRING_LEN
            invariant
                start <= i <= self.bytes@.len(),
                start < self.bytes@.len(),
                start == address - self.base,
                address >= self.base,
                out@ == self.bytes@.subrange(start as int, i as int),
                forall|j: int| start <= j < i ==> self.bytes@[j] != 0,
            decreases self.bytes@.len() - i,
        {
            if self.bytes[i] == 0 {
                proof {
                    let n = (i - start) as int;
                    assert(terminated_at(self.bytes@, start as int, n));
                    let c = choose|c: int| terminated_at(self.bytes@, start as int, c);
                    if c < n {
                        assert(self.bytes@[start + c] != 0);
                    }
                    if c > n {
                        assert(self.bytes@[start + n] != 0);
                    }
                }
                return Ok(out);
            }
            out.push(self.bytes[i]);
            i = i + 1;
            assert(out@ =~= self.bytes@.subrange(start as int, i as int));
        }
        proof {
            assert forall|n: int| !terminated_at(self.bytes@, start as int, n) by {
                if terminated_at(self.bytes@, start as int, n) && start + n < i {
                    assert(self.bytes@[start + n] != 0);
                }
            }
        }
        Err(ArgumentError::UnterminatedString)
    }
}

/// What the call site passes as the format string: its address, where that
/// is a single constant.
pub open spec fn format_string_address(state: State, symbol: ExternSymbol, index: usize) -> Result<u64, ArgumentError> {
    if index >= symbol.parameters@.len() {
        Err(ArgumentError::NoFormatStringParameter)
    } else {
        let v = eval_arg_spec(state, symbol.parameters@[index as int]);
        if exists|c: i64| v.absolute == set![c] && v.relative.is_empty() && !v.contains_top {
            Ok((choose|c: i64| v.absolute == set![c] && v.relative.is_empty() && !v.contains_top) as u64)
        } else {
            Err(ArgumentError::FormatStringNotInGlobalMemory)
        }
    }
}

/// The format string that the call site passes.
pub open spec fn input_format_string(state: State, symbol: ExternSymbol, index: usize, image: MemoryImage) -> Result<Seq<u8>, ArgumentError> {
    match format_string_address(state, symbol, index) {
        Ok(a) => c_string_at(image, a),
        Err(e) => Err(e),
    }
}

pub open spec fn same_result(r: Result<Vec<u8>, ArgumentError>, s: Result<Seq<u8>, ArgumentError>) -> bool {
    match r {
        Ok(v) => s == Ok::<Seq<u8>, ArgumentError>(v@),
        Err(e) => s == Err::<Seq<u8>, ArgumentError>(e),
    }
}

/// Reads the format string that the call site passes to `extern_symbol` as
/// its parameter number `format_string_index`.
pub fn get_input_format_string(
    pi_state: &State,
    extern_symbol: &ExternSymbol,
    format_string_index: usize,
    runtime_memory_image: &MemoryImage,
) -> (r: Result<Vec<u8>, ArgumentError>)
    ensures
        same_result(r, input_format_string(*pi_state, *extern_symbol, format_string_index, *runtime_memory_image)),
{
    if format_string_index < extern_symbol.parameters.len() {
        let value: Value = pi_state.eval_parameter_arg(&extern_symbol.parameters[format_string_index]);
        if let Some(address) = value.get_if_absolute_value() {
            proof {
                let v = value@;
                let c = choose|c: i64| v.absolute == set![c] && v.relative.is_empty() && !v.contains_top;
                assert(v.absolute.contains(address));
                assert(set![c].contains(address));
            }
            return parse_format_string_destination_and_return_content(address as u64, runtime_memory_image);
        }
        return Err(ArgumentError::FormatStringNotInGlobalMemory);
    }
    Err(ArgumentError::NoFormatStringParameter)
}

/// Reads the format string at `address` from the memory image.
pub fn parse_format_string_destination_and_return_content(
    address: u64,
    runtime_memory_image: &MemoryImage,
) -> (r: Result<Vec<u8>, ArgumentError>)
    ensures
        same_result(r, c_string_at(*runtime_memory_image, address)),
{
    runtime_memory_image.read_string_until_null_terminator(address)
}


/// The texts of the successive non-overlapping matches of `pattern` in `haystack`.
pub uninterp spec fn regex_find_all(pattern: Seq<char>, haystack: Seq<u8>) -> Seq<Seq<u8>>;

pub open spec fn byte_views(v: Seq<Vec<u8>>) -> Seq<Seq<u8>> {
    v.map_values(|m: Vec<u8>| m@)
}

/// Relies on regex::bytes::Regex::new to build the recogniser (an error where
/// the pattern is invalid; the specifier pattern of this module is valid and
/// small, so it is built) and on Regex::find_iter for the texts of its
/// successive non-overlapping leftmost-first matches in the haystack.
#[verifier::external_body]
fn find_all_matches(pattern: &str, haystack: &[u8]) -> (r: Option<Vec<Vec<u8>>>)
    ensures
        r matches Some(v) ==> byte_views(v@) == regex_find_all(pattern@, haystack@),
        pattern@ == FORMAT_SPECIFIER_PATTERN@ ==> r is Some,
{
    match regex::bytes::Regex::new(pattern) {
        Ok(re) => Some(re.find_iter(haystack).map(|m| m.as_bytes().to_vec()).collect()),
        Err(_) => None,
    }
}

/// The conversion, with its length modifier, that a one-, two- or
/// three-byte specifier names.
pub open spec fn conversion_datatype(s: Seq<u8>) -> Option<Datatype> {
    if s.len() == 1 {
        let c = s[0];
        if c == 0x63 || c == 0x43 {
            // c C
            Some(Datatype::Char)
        } else if c == 0x64 || c == 0x69 || c == 0x6f || c == 0x75 || c == 0x78 || c == 0x58 {
            // d i o u x X
            Some(Datatype::Integer)
        } else if c == 0x73 || c == 0x53 || c == 0x6e || c == 0x70 {
            // s S n p
            Some(Datatype::Pointer)
        } else if c == 0x65 || c == 0x45 || c == 0x66 || c == 0x46 || c == 0x67 || c == 0x47
            || c == 0x61 || c == 0x41 {
            // e E f F g G a A
            Some(Datatype::Double)
        } else {
            None
        }
    } else if s.len() == 2 {
        let m = s[0];
        let c = s[1];
        if m == 0x68 && (c == 0x69 || c == 0x64 || c == 0x75) {
            // hi hd hu
            Some(Datatype::Integer)
        } else if m == 0x6c && (c == 0x69 || c == 0x64 || c == 0x75) {
            // li ld lu
            Some(Datatype::Long)
        } else if m == 0x6c && is_float_conversion(c) {
            // lf lg le la lF lG lE lA
            Some(Datatype::Double)
        } else if m == 0x4c && is_float_conversion(c) {
            // Lf Lg Le La LF LG LE LA
            Some(Datatype::LongDouble)
        } else {
            None
        }
    } else if s.len() == 3 {
        if s[0] == 0x6c && s[1] == 0x6c && (s[2] == 0x69 || s[2] == 0x64 || s[2] == 0x75) {
            // lli lld llu
            Some(Datatype::LongLong)
        } else {
            None
        }
    } else {
        None
    }
}

/// f g e a F G E A
pub open spec fn is_float_conversion(c: u8) -> bool {
    c == 0x66 || c == 0x67 || c == 0x65 || c == 0x61 || c == 0x46 || c == 0x47 || c == 0x45
        || c == 0x41
}

pub open spec fn is_digit(c: u8) -> bool {
    0x30 <= c <= 0x39
}

/// The number of leading digits of `s` from index `i` on.
pub open spec fn digits_end(s: Seq<u8>, i: int) -> int
    decreases s.len() - i,
{
    if i < 0 || i >= s.len() || !is_digit(s[i]) {
        i
    } else {
        digits_end(s, i + 1)
    }
}

/// The data type that a matched specifier text such as `%2d` asks for.
pub open spec fn specifier_datatype(m: Seq<u8>) -> Option<Datatype> {
    if m.len() >= 1 && m[0] == 0x25 {
        conversion_datatype(m.subrange(digits_end(m, 1), m.len() as int))
    } else {
        None
    }
}

/// The type and the size in bytes that a specifier's argument has when it is
/// passed: a `char` is promoted to an `int`.
pub open spec fn passed_size(p: DatatypeProperties, d: Datatype) -> u64 {
    if d == Datatype::Char {
        size_of(p, Datatype::Integer)
    } else {
        size_of(p, d)
    }
}

pub open spec fn is_unsupported(d: Datatype) -> bool {
    d == Datatype::Long || d == Datatype::LongLong || d == Datatype::LongDouble
}

/// The types and sizes of the arguments that the matched specifiers ask for.
pub open spec fn specifier_types(ms: Seq<Seq<u8>>, p: DatatypeProperties) -> Result<Seq<(Datatype, u64)>, ArgumentError> {
    if exists|i: int| 0 <= i < ms.len() && #[trigger] specifier_datatype(ms[i]) is None {
        Err(ArgumentError::UnknownSpecifier)
    } else if exists|i: int| 0 <= i < ms.len() && is_unsupported(#[trigger] specifier_datatype(ms[i])->Some_0) {
        Err(ArgumentError::UnsupportedDatatype)
    } else {
        Ok(ms.map_values(|m: Seq<u8>| (specifier_datatype(m)->Some_0, passed_size(p, specifier_datatype(m)->Some_0))))
    }
}

fn conversion_datatype_of(s: &[u8]) -> (r: Option<Datatype>)
    ensures
        r == conversion_datatype(s@),
{
    if s.len() == 1 {
        let c = s[0];
        if c == 0x63 || c == 0x43 {
            Some(Datatype::Char)
        } else if c == 0x64 || c == 0x69 || c == 0x6f || c == 0x75 || c == 0x78 || c == 0x58 {
            Some(Datatype::Integer)
        } else if c == 0x73 || c == 0x53 || c == 0x6e || c == 0x70 {
            Some(Datatype::Pointer)
        } else if c == 0x65 || c == 0x45 || c == 0x66 || c == 0x46 || c == 0x67 || c == 0x47
            || c == 0x61 || c == 0x41 {
            Some(Datatype::Double)
        } else {
            None
        }
    } else if s.len() == 2 {
        let m = s[0];
        let c = s[1];
        let float = c == 0x66 || c == 0x67 || c == 0x65 || c == 0x61 || c == 0x46 || c == 0x47
            || c == 0x45 || c == 0x41;
        if m == 0x68 && (c == 0x69 || c == 0x64 || c == 0x75) {
            Some(Datatype::Integer)
        } else if m == 0x6c && (c == 0x69 || c == 0x64 || c == 0x75) {
            Some(Datatype::Long)
        } else if m == 0x6c && float {
            Some(Datatype::Double)
        } else if m == 0x4c && float {
            Some(Datatype::LongDouble)
        } else {
            None
        }
    } else if s.len() == 3 {
        if s[0] == 0x6c && s[1] == 0x6c && (s[2] == 0x69 || s[2] == 0x64 || s[2] == 0x75) {
            Some(Datatype::LongLong)
        } else {
            None
        }
    } else {
        None
    }
}

/// The data type that a matched specifier text asks for.
pub fn datatype_of_specifier(m: &Vec<u8>) -> (r: Option<Datatype>)
    ensures
        r == specifier_datatype(m@),
{
    if m.len() == 0 || m[0] != 0x25 {
        return None;
    }
    let mut i: usize = 1;
    while i < m.len() && 0x30 <= m[i] && m[i] <= 0x39
        invariant
            1 <= i <= m@.len(),
            digits_end(m@, 1) == digits_end(m@, i as int),
        decreases m@.len() - i,
    {
        i = i + 1;
    }
    let rest = m.as_slice().split_at(i).1;
    assert(rest@ =~= m@.subrange(i as int, m@.len() as int));
    conversion_datatype_of(rest)
}

/// The types and sizes of the arguments that matched specifier texts ask for:
/// an error where one names no conversion or asks for a `long` type.
pub fn datatypes_of_specifiers(
    matches: &Vec<Vec<u8>>,
    datatype_properties: &DatatypeProperties,
) -> (r: Result<Vec<(Datatype, u64)>, ArgumentError>)
    ensures
        match r {
            Ok(v) => specifier_types(byte_views(matches@), *datatype_properties) == Ok::<Seq<(Datatype, u64)>, ArgumentError>(v@),
            Err(e) => specifier_types(byte_views(matches@), *datatype_properties) == Err::<Seq<(Datatype, u64)>, ArgumentError>(e),
        },
{
    let ghost ms = byte_views(matches@);
    let mut out: Vec<(Datatype, u64)> = Vec::new();
    let mut unsupported = false;
    let mut i: usize = 0;
    while i < matches.len()
        invariant
            i <= matches@.len(),
            ms == byte_views(matches@),
            forall|k: int| 0 <= k < i ==> #[trigger] specifier_datatype(ms[k]) is Some,
            unsupported == exists|k: int| 0 <= k < i && is_unsupported(#[trigger] specifier_datatype(ms[k])->Some_0),
            out@ == ms.take(i as int).map_values(|m: Seq<u8>| (specifier_datatype(m)->Some_0, passed_size(*datatype_properties, specifier_datatype(m)->Some_0))),
        decreases matches@.len() - i,
    {
        assert(ms[i as int] == matches@[i as int]@);
        let data_type = match datatype_of_specifier(&matches[i]) {
            Some(d) => d,
            None => {
                assert(0 <= i < ms.len() && specifier_datatype(ms[i as int]) is None);
                return Err(ArgumentError::UnknownSpecifier);
            },
        };
        // A char argument is promoted to int when it is passed.
        let size = match data_type {
            Datatype::Char => datatype_properties.get_size_from_data_type(Datatype::Integer),
            _ => datatype_properties.get_size_from_data_type(data_type),
        };
        match data_type {
            Datatype::Long | Datatype::LongLong | Datatype::LongDouble => {
                unsupported = true;
            },
            _ => {},
        }
        out.push((data_type, size));
        proof {
            assert(ms.take(i + 1) =~= ms.take(i as int).push(ms[i as int]));
            if exists|k: int| 0 <= k < i + 1 && is_unsupported(#[trigger] specifier_datatype(ms[k])->Some_0) {
                let k = choose|k: int| 0 <= k < i + 1 && is_unsupported(#[trigger] specifier_datatype(ms[k])->Some_0);
                if k < i {
                    assert(exists|k: int| 0 <= k < i && is_unsupported(#[trigger] specifier_datatype(ms[k])->Some_0));
                }
            }
        }
        i = i + 1;
        assert(out@ =~= ms.take(i as int).map_values(|m: Seq<u8>| (specifier_datatype(m)->Some_0, passed_size(*datatype_properties, specifier_datatype(m)->Some_0))));
    }
    assert(ms.take(i as int) =~= ms);
    if unsupported {
        return Err(ArgumentError::UnsupportedDatatype);
    }
    Ok(out)
}

/// Recognises the conversion specifiers of a format string and gives the type
/// and passed size of each argument they ask for.
pub fn parse_format_string_parameters(
    format_string: &Vec<u8>,
    datatype_properties: &DatatypeProperties,
) -> (r: Result<Vec<(Datatype, u64)>, ArgumentError>)
    ensures
        match r {
            Ok(v) => specifier_types(regex_find_all(FORMAT_SPECIFIER_PATTERN@, format_string@), *datatype_properties)
                == Ok::<Seq<(Datatype, u64)>, ArgumentError>(v@),
            Err(e) => specifier_types(regex_find_all(FORMAT_SPECIFIER_PATTERN@, format_string@), *datatype_properties)
                == Err::<Seq<(Datatype, u64)>, ArgumentError>(e),
        },
{
    match find_all_matches(FORMAT_SPECIFIER_PATTERN, format_string.as_slice()) {
        Some(matches) => datatypes_of_specifiers(&matches, datatype_properties),
        None => Err(ArgumentError::InvalidPattern),
    }
}


/// The argument in register expression `expr`, of type `d`.
pub open spec fn register_arg(expr: Expression, d: Datatype) -> Arg {
    Arg::Register { expr, data_type: Some(d) }
}

/// The argument of `size` bytes at `offset` from the stack register, of type `d`.
pub open spec fn stack_arg(size: u64, offset: i64, d: Datatype, sp: Variable) -> Arg {
    Arg::Stack {
        address: Expression::PlusConst(Box::new(Expression::Var(sp)), offset),
        size,
        data_type: Some(d),
    }
}

/// Where the first stack argument lies: behind the return address where the
/// call pushes one.
pub open spec fn initial_stack_offset(sp: Variable, arch: CpuArchitecture) -> i64 {
    if pushes_return_address(arch) {
        sp.size as i64
    } else {
        0
    }
}

/// The progress of the assignment of locations.
pub struct Placement {
    pub args: Seq<Arg>,
    /// Integer parameter registers still free.
    pub int_left: int,
    /// Float parameter registers still free.
    pub float_left: int,
    /// The offset of the next stack argument.
    pub offset: i64,
}

/// The locations of the first `n` arguments: each integer, pointer or char
/// argument takes the next free integer register after the format string's
/// own, each double the next free float register; once a bank is used up the
/// argument goes to the next stack slot.
pub open spec fn placement(
    params: Seq<(Datatype, u64)>,
    cc: CallingConvention,
    index: usize,
    sp: Variable,
    arch: CpuArchitecture,
    n: int,
) -> Placement
    decreases n,
{
    if n <= 0 {
        Placement {
            args: Seq::empty(),
            int_left: cc.integer_parameter_register@.len() - (index + 1),
            float_left: cc.float_parameter_register@.len() as int,
            offset: initial_stack_offset(sp, arch),
        }
    } else {
        let prev = placement(params, cc, index, sp, arch, n - 1);
        let (d, size) = params[n - 1];
        if d == Datatype::Double {
            if prev.float_left > 0 {
                let e = cc.float_parameter_register@[cc.float_parameter_register@.len() - prev.float_left];
                Placement { args: prev.args.push(register_arg(e, d)), float_left: prev.float_left - 1, ..prev }
            } else {
                Placement {
                    args: prev.args.push(stack_arg(size, prev.offset, d, sp)),
                    offset: prev.offset.wrapping_add(size as i64),
                    ..prev
                }
            }
        } else {
            if prev.int_left > 0 {
                let v = cc.integer_parameter_register@[cc.integer_parameter_register@.len() - prev.int_left];
                Placement {
                    args: prev.args.push(register_arg(Expression::Var(v), d)),
                    int_left: prev.int_left - 1,
                    ..prev
                }
            } else {
                Placement {
                    args: prev.args.push(stack_arg(size, prev.offset, d, sp)),
                    offset: prev.offset.wrapping_add(size as i64),
                    ..prev
                }
            }
        }
    }
}

/// The locations of all the arguments.
pub open spec fn parameter_locations(
    params: Seq<(Datatype, u64)>,
    cc: CallingConvention,
    index: usize,
    sp: Variable,
    arch: CpuArchitecture,
) -> Seq<Arg> {
    placement(params, cc, index, sp, arch, params.len() as int).args
}

pub open spec fn arg_datatype(a: Arg) -> Option<Datatype> {
    match a {
        Arg::Register { data_type, .. } => data_type,
        Arg::Stack { data_type, .. } => data_type,
    }
}

/// A data type that has a location rule.
pub open spec fn is_locatable(d: Datatype) -> bool {
    d == Datatype::Integer || d == Datatype::Pointer || d == Datatype::Char || d == Datatype::Double
}

/// Each argument gets exactly one location, of its own type, in order.
pub proof fn lemma_one_location_per_specifier(
    params: Seq<(Datatype, u64)>,
    cc: CallingConvention,
    index: usize,
    sp: Variable,
    arch: CpuArchitecture,
    n: int,
)
    requires
        0 <= n <= params.len(),
    ensures
        placement(params, cc, index, sp, arch, n).args.len() == n,
        forall|i: int| 0 <= i < n ==> #[trigger] arg_datatype(placement(params, cc, index, sp, arch, n).args[i]) == Some(params[i].0),
        0 <= placement(params, cc, index, sp, arch, n).float_left <= cc.float_parameter_register@.len(),
        index < cc.integer_parameter_register@.len() ==> 0 <= placement(params, cc, index, sp, arch, n).int_left < cc.integer_parameter_register@.len(),
    decreases n,
{
    if n > 0 {
        lemma_one_location_per_specifier(params, cc, index, sp, arch, n - 1);
        let prev = placement(params, cc, index, sp, arch, n - 1);
        let cur = placement(params, cc, index, sp, arch, n);
        assert forall|i: int| 0 <= i < n implies #[trigger] arg_datatype(cur.args[i]) == Some(params[i].0) by {
            if i < n - 1 {
                assert(cur.args[i] == prev.args[i]);
            }
        }
    }
}

/// Every recognised specifier yields exactly one location, and the locations
/// come in the order of the specifiers.
pub proof fn lemma_locations_match_specifiers(
    params: Seq<(Datatype, u64)>,
    cc: CallingConvention,
    index: usize,
    sp: Variable,
    arch: CpuArchitecture,
)
    ensures
        parameter_locations(params, cc, index, sp, arch).len() == params.len(),
        forall|i: int| 0 <= i < params.len() ==> #[trigger] arg_datatype(parameter_locations(params, cc, index, sp, arch)[i]) == Some(params[i].0),
{
    lemma_one_location_per_specifier(params, cc, index, sp, arch, params.len() as int);
}

/// A stack argument of `size` bytes at `stack_offset` from the stack register.
pub fn create_stack_arg(size: u64, stack_offset: i64, data_type: Datatype, stack_register: &Variable) -> (r: Arg)
    ensures
        r == stack_arg(size, stack_offset, data_type, *stack_register),
{
    Arg::Stack {
        address: Expression::Var(*stack_register).plus_const(stack_offset),
        size,
        data_type: Some(data_type),
    }
}

/// A register argument in `expr`.
pub fn create_register_arg(expr: Expression, data_type: Datatype) -> (r: Arg)
    ensures
        r == register_arg(expr, data_type),
{
    Arg::Register { expr, data_type: Some(data_type) }
}

/// The register and stack locations of the arguments that the format string
/// asks for, after the format string itself as parameter `format_string_index`.
pub fn calculate_parameter_locations(
    parameters: Vec<(Datatype, u64)>,
    calling_convention: &CallingConvention,
    format_string_index: usize,
    stack_register: &Variable,
    cpu_arch: CpuArchitecture,
) -> (r: Vec<Arg>)
    requires
        format_string_index < calling_convention.integer_parameter_register@.len(),
        forall|i: int| 0 <= i < parameters@.len() ==> is_locatable(#[trigger] parameters@[i].0),
    ensures
        r@ == parameter_locations(parameters@, *calling_convention, format_string_index, *stack_register, cpu_arch),
        r@.len() == parameters@.len(),
        forall|i: int| 0 <= i < parameters@.len() ==> #[trigger] arg_datatype(r@[i]) == Some(parameters@[i].0),
{
    let ghost params = parameters@;
    let ghost cc = *calling_convention;
    let n_int = calling_convention.integer_parameter_register.len();
    let n_float = calling_convention.float_parameter_register.len();
    let mut var_args: Vec<Arg> = Vec::new();
    // The format string is the last fixed argument: the integer registers after it are free.
    let mut integer_arg_register_count: usize = n_int - (format_string_index + 1);
    let mut float_arg_register_count: usize = n_float;
    let mut stack_offset: i64 = match cpu_arch {
        CpuArchitecture::X86 | CpuArchitecture::X86_32 | CpuArchitecture::X86_64 => stack_register.size as i64,
        _ => 0,
    };
    let mut i: usize = 0;
    while i < parameters.len()
        invariant
            i <= params.len(),
            params == parameters@,
            cc == *calling_convention,
            n_int == cc.integer_parameter_register@.len(),
            n_float == cc.float_parameter_register@.len(),
            format_string_index < n_int,
            forall|k: int| 0 <= k < params.len() ==> is_locatable(#[trigger] params[k].0),
            placement(params, cc, format_string_index, *stack_register, cpu_arch, i as int) == (Placement {
                args: var_args@,
                int_left: integer_arg_register_count as int,
                float_left: float_arg_register_count as int,
                offset: stack_offset,
            }),
        decreases params.len() - i,
    {
        proof {
            lemma_one_location_per_specifier(params, cc, format_string_index, *stack_register, cpu_arch, i as int);
        }
        let (data_type, size) = parameters[i];
        match data_type {
            Datatype::Double => {
                if float_arg_register_count > 0 {
                    let expr = calling_convention.float_parameter_register[n_float - float_arg_register_count].duplicate();
                    var_args.push(create_register_arg(expr, data_type));
                    float_arg_register_count = float_arg_register_count - 1;
                } else {
                    var_args.push(create_stack_arg(size, stack_offset, data_type, stack_register));
                    stack_offset = stack_offset.wrapping_add(size as i64);
                }
            },
            _ => {
                assert(is_locatable(params[i as int].0));
                if integer_arg_register_count > 0 {
                    let register = calling_convention.integer_parameter_register[n_int - integer_arg_register_count];
                    var_args.push(create_register_arg(Expression::Var(register), data_type));
                    integer_arg_register_count = integer_arg_register_count - 1;
                } else {
                    var_args.push(create_stack_arg(size, stack_offset, data_type, stack_register));
                    stack_offset = stack_offset.wrapping_add(size as i64);
                }
            },
        }
        i = i + 1;
    }
    proof {
        lemma_locations_match_specifiers(params, cc, format_string_index, *stack_register, cpu_arch);
    }
    var_args
}

/// The format-string index that the list gives for `name`: its first entry.
pub open spec fn is_first_index_entry(map: Seq<(String, usize)>, name: Seq<char>, i: int) -> bool {
    &&& 0 <= i < map.len()
    &&& map[i].0@ == name
    &&& forall|k: int| 0 <= k < i ==> map[k].0@ != name
}

pub open spec fn format_index_of(map: Seq<(String, usize)>, name: Seq<char>) -> usize {
    map[choose|i: int| is_first_index_entry(map, name, i)].1
}

/// What the variadic arguments of a call are located at, given the format
/// string that the call passes.
pub open spec fn variable_parameters_spec(
    project: Project,
    symbol: ExternSymbol,
    index: usize,
    format_string: Seq<u8>,
) -> Result<Seq<Arg>, ArgumentError> {
    match specifier_types(regex_find_all(FORMAT_SPECIFIER_PATTERN@, format_string), project.datatype_properties) {
        Ok(ps) => Ok(parameter_locations(
            ps,
            convention_of(project, symbol)->Some_0,
            index,
            project.stack_pointer_register,
            project.cpu_architecture,
        )),
        Err(e) => Err(e),
    }
}

/// The locations of the variadic arguments of a call to `extern_symbol`, whose
/// format-string parameter `format_string_index_map` gives by symbol name.
pub fn get_variable_parameters(
    project: &Project,
    pi_state: &State,
    extern_symbol: &ExternSymbol,
    format_string_index_map: &Vec<(String, usize)>,
    runtime_memory_image: &MemoryImage,
) -> (r: Result<Vec<Arg>, ArgumentError>)
    requires
        exists|i: int| 0 <= i < format_string_index_map@.len() && format_string_index_map@[i].0@ == extern_symbol.name@,
        convention_of(*project, *extern_symbol) is Some,
        format_index_of(format_string_index_map@, extern_symbol.name@)
            < convention_of(*project, *extern_symbol)->Some_0.integer_parameter_register@.len(),
    ensures
        ({
            let index = format_index_of(format_string_index_map@, extern_symbol.name@);
            match input_format_string(*pi_state, *extern_symbol, index, *runtime_memory_image) {
                Err(e) => r == Err::<Vec<Arg>, ArgumentError>(e),
                Ok(fs) => match r {
                    Ok(v) => variable_parameters_spec(*project, *extern_symbol, index, fs) == Ok::<Seq<Arg>, ArgumentError>(v@),
                    Err(e) => variable_parameters_spec(*project, *extern_symbol, index, fs) == Err::<Seq<Arg>, ArgumentError>(e),
                },
            }
        }),
{
    let mut i: usize = 0;
    while i < format_string_index_map.len() && format_string_index_map[i].0 != extern_symbol.name
        invariant
            i <= format_string_index_map@.len(),
            forall|k: int| 0 <= k < i ==> format_string_index_map@[k].0@ != extern_symbol.name@,
        decreases format_string_index_map@.len() - i,
    {
        i = i + 1;
    }
    if i >= format_string_index_map.len() {
        // unreachable: the map names the symbol
        proof {
            let k = choose|k: int| 0 <= k < format_string_index_map@.len() && format_string_index_map@[k].0@ == extern_symbol.name@;
            assert(format_string_index_map@[k].0@ != extern_symbol.name@);
        }
        return Err(ArgumentError::NoFormatStringParameter);
    }
    let format_string_index = format_string_index_map[i].1;
    proof {
        assert(is_first_index_entry(format_string_index_map@, extern_symbol.name@, i as int));
        let c = choose|c: int| is_first_index_entry(format_string_index_map@, extern_symbol.name@, c);
        if c < i {
            assert(format_string_index_map@[c].0@ != extern_symbol.name@);
        }
        if c > i {
            assert(format_string_index_map@[i as int].0@ != extern_symbol.name@);
        }
    }
    let format_string = get_input_format_string(pi_state, extern_symbol, format_string_index, runtime_memory_image)?;
    let parameters = parse_format_string_parameters(&format_string, &project.datatype_properties)?;
    let calling_convention = match project.get_calling_convention(extern_symbol) {
        Some(cc) => cc,
        None => return Err(ArgumentError::NoFormatStringParameter),
    };
    proof {
        let ms = regex_find_all(FORMAT_SPECIFIER_PATTERN@, format_string@);
        assert forall|k: int| 0 <= k < parameters@.len() implies is_locatable(#[trigger] parameters@[k].0) by {
            assert(!is_unsupported(specifier_datatype(ms[k])->Some_0));
            assert(parameters@[k].0 == specifier_datatype(ms[k])->Some_0);
        }
    }
    Ok(calculate_parameter_locations(
        parameters,
        calling_convention,
        format_string_index,
        &project.stack_pointer_register,
        project.cpu_architecture,
    ))
}

} // verus!
