//! Dialect registration descriptors and declarative operation formats.

pub mod compose;
pub mod config;
pub mod expand;
pub mod format;
pub mod loader;

use vstd::prelude::*;
use crate::representation::SyntaxKind;
use crate::dialect::expand::shape_entries;
use vstd::string::StringSliceAdditionalSpecFns;
use vstd::utf8::{decode_utf8, encode_utf8, encode_utf8_decode_utf8, valid_utf8};

verus! {

/// How the blocks of a region relate.
#[derive(Clone, Copy, Debug, PartialEq, Eq, Structural)]
pub enum RegionKind {
    Ssacfg,
    Graph,
}

/// How an operation takes part in symbol tables.
#[derive(Clone, Copy, Debug, PartialEq, Eq, Structural)]
pub struct SymbolDescriptor {
    pub defines_symbol: bool,
    pub symbol_table: bool,
    pub uses_symbols: bool,
}

impl SymbolDescriptor {
    /// Takes no part in symbol tables.
    pub fn default() -> (r: Self)
        ensures
            r == (SymbolDescriptor { defines_symbol: false, symbol_table: false, uses_symbols: false }),
    {
        SymbolDescriptor { defines_symbol: false, symbol_table: false, uses_symbols: false }
    }
}

/// The kind of a region, and whether it sees values defined above it.
#[derive(Clone, Copy, Debug, PartialEq, Eq, Structural)]
pub struct RegionDescriptor {
    pub kind: RegionKind,
    pub isolated_from_above: bool,
}

impl RegionDescriptor {
    /// An SSA control-flow region that is not isolated.
    pub fn default() -> (r: Self)
        ensures
            r == (RegionDescriptor { kind: RegionKind::Ssacfg, isolated_from_above: false }),
    {
        RegionDescriptor { kind: RegionKind::Ssacfg, isolated_from_above: false }
    }
}

/// How many results an operation has.
#[derive(Clone, Copy, Debug, PartialEq, Eq, Structural)]
pub enum ResultCount {
    Exact(usize),
    Variadic,
}

impl ResultCount {
    pub fn accepts(self, count: usize) -> (r: bool)
        ensures
            r == (self is Variadic || self == ResultCount::Exact(count)),
    {
        match self {
            ResultCount::Variadic => true,
            ResultCount::Exact(expected) => expected == count,
        }
    }
}

/// How many operands an operation takes.
#[derive(Clone, Copy, Debug, PartialEq, Eq, Structural)]
pub enum OperandCount {
    Exact(usize),
    Variadic,
}

impl OperandCount {
    pub fn accepts(self, count: usize) -> (r: bool)
        ensures
            r == (self is Variadic || self == OperandCount::Exact(count)),
    {
        match self {
            OperandCount::Variadic => true,
            OperandCount::Exact(expected) => expected == count,
        }
    }
}

/// The operand and result counts and the required attributes of an operation.
#[derive(Clone, Debug)]
pub struct OperationSchema {
    pub operands: OperandCount,
    pub results: ResultCount,
    pub required_attributes: Vec<&'static str>,
}

/// A built-in custom assembly grammar.
#[derive(Clone, Copy, Debug, PartialEq, Eq, Structural)]
pub enum AssemblyProgram {
    Module,
    Function,
    Call,
    ConditionalBranch,
    TypedAttribute,
    BinaryOperands,
    OptionalTypedOperands,
    TypedSuccessor,
}

/// The operation that a grammar belongs to.
pub open spec fn program_operation(p: AssemblyProgram) -> Seq<char> {
    match p {
        AssemblyProgram::Module => "builtin.module"@,
        AssemblyProgram::Function => "func.func"@,
        AssemblyProgram::Call => "func.call"@,
        AssemblyProgram::ConditionalBranch => "cf.cond_br"@,
        AssemblyProgram::TypedAttribute => "arith.constant"@,
        AssemblyProgram::BinaryOperands => "arith.addi"@,
        AssemblyProgram::OptionalTypedOperands => "func.return"@,
        AssemblyProgram::TypedSuccessor => "cf.br"@,
    }
}

/// The attribute that a grammar writes inline, if any.
pub open spec fn program_attribute(p: AssemblyProgram) -> Option<Seq<char>> {
    match p {
        AssemblyProgram::Module => Some("sym_name"@),
        AssemblyProgram::Function => Some("sym_name"@),
        AssemblyProgram::Call => Some("callee"@),
        AssemblyProgram::ConditionalBranch => None,
        AssemblyProgram::TypedAttribute => Some("value"@),
        AssemblyProgram::BinaryOperands => Some("overflowFlags"@),
        AssemblyProgram::OptionalTypedOperands => None,
        AssemblyProgram::TypedSuccessor => None,
    }
}

impl AssemblyProgram {
    pub fn operation_name(self) -> (r: &'static str)
        ensures
            r@ == program_operation(self),
    {
        match self {
            AssemblyProgram::Module => "builtin.module",
            AssemblyProgram::Function => "func.func",
            AssemblyProgram::Call => "func.call",
            AssemblyProgram::ConditionalBranch => "cf.cond_br",
            AssemblyProgram::TypedAttribute => "arith.constant",
            AssemblyProgram::BinaryOperands => "arith.addi",
            AssemblyProgram::OptionalTypedOperands => "func.return",
            AssemblyProgram::TypedSuccessor => "cf.br",
        }
    }

    pub fn inherent_attribute(self) -> (r: Option<&'static str>)
        ensures
            match r {
                Some(a) => program_attribute(self) == Some(a@),
                None => program_attribute(self) is None,
            },
    {
        match self {
            AssemblyProgram::Module => Some("sym_name"),
            AssemblyProgram::Function => Some("sym_name"),
            AssemblyProgram::Call => Some("callee"),
            AssemblyProgram::ConditionalBranch => None,
            AssemblyProgram::TypedAttribute => Some("value"),
            AssemblyProgram::BinaryOperands => Some("overflowFlags"),
            AssemblyProgram::OptionalTypedOperands => None,
            AssemblyProgram::TypedSuccessor => None,
        }
    }
}

/// Whether two names are the same text.
pub fn same_name(left: &str, right: &str) -> (r: bool)
    ensures
        r == (left@ == right@),
{
    let l = left.as_bytes();
    let r = right.as_bytes();
    proof {
        encode_utf8_decode_utf8(left@);
        encode_utf8_decode_utf8(right@);
    }
    if l.len() != r.len() {
        return false;
    }
    let mut index: usize = 0;
    while index < l.len()
        invariant
            l@.len() == r@.len(),
            index <= l@.len(),
            l@ == encode_utf8(left@),
            r@ == encode_utf8(right@),
            decode_utf8(encode_utf8(left@)) == left@,
            decode_utf8(encode_utf8(right@)) == right@,
            forall|k: int| 0 <= k < index ==> l@[k] == r@[k],
        decreases l@.len() - index,
    {
        if l[index] != r[index] {
            return false;
        }
        index = index + 1;
    }
    assert(l@ =~= r@);
    true
}

/// The text of each name.
pub open spec fn name_views(names: Seq<&str>) -> Seq<Seq<char>> {
    names.map_values(|n: &str| n@)
}

/// Whether two lists of names are the same, name by name.
pub fn same_names(left: &[&str], right: &[&str]) -> (r: bool)
    ensures
        r == (name_views(left@) == name_views(right@)),
{
    if left.len() != right.len() {
        return false;
    }
    let mut index: usize = 0;
    while index < left.len()
        invariant
            left@.len() == right@.len(),
            index <= left@.len(),
            forall|k: int| 0 <= k < index ==> left@[k]@ == right@[k]@,
        decreases left@.len() - index,
    {
        if !same_name(left[index], right[index]) {
            assert(name_views(left@)[index as int] != name_views(right@)[index as int]);
            return false;
        }
        index = index + 1;
    }
    assert(name_views(left@) =~= name_views(right@));
    true
}

/// An operation that a registry knows: its name, node kind, grammar, schema,
/// regions, and symbol behaviour.
#[derive(Clone, Debug)]
pub struct OperationDescriptor {
    pub name: String,
    pub syntax_kind: SyntaxKind,
    pub assembly: Option<AssemblyProgram>,
    pub schema: OperationSchema,
    pub regions: Vec<RegionDescriptor>,
    pub symbols: SymbolDescriptor,
}

/// A type that a registry knows by name.
#[derive(Clone, Debug)]
pub struct TypeDescriptor {
    pub name: String,
}

/// An attribute that a registry knows by name.
#[derive(Clone, Debug)]
pub struct AttributeDescriptor {
    pub name: String,
}

/// Why a declarative registry could not be built.
#[derive(Clone, Debug, PartialEq, Eq)]
pub enum DeclarativeRegistryError {
    UnknownOperation(String),
    DuplicateOperation(String),
    EmptyOperation,
    CoreOperation(String),
    DuplicatePreset(String),
    UnknownPreset(String),
    ConflictingShape(String),
    ConflictingFormat(String),
    ConflictingAlternatives(String),
    ConflictingCallTargetAttribute(String),
    InvalidCallTargetAttribute(String),
    InvalidOperationAlternatives(String),
    UnresolvedImports,
}

/// The variant of a [`DeclarativeRegistryError`], without its name.
#[derive(Clone, Copy, Debug, PartialEq, Eq, Structural)]
pub enum RegistryErrorKind {
    UnknownOperation,
    DuplicateOperation,
    EmptyOperation,
    CoreOperation,
    DuplicatePreset,
    UnknownPreset,
    ConflictingShape,
    ConflictingFormat,
    ConflictingAlternatives,
    ConflictingCallTargetAttribute,
    InvalidCallTargetAttribute,
    InvalidOperationAlternatives,
    UnresolvedImports,
}

impl View for DeclarativeRegistryError {
    /// The variant and the name it carries (empty where it carries none).
    type V = (RegistryErrorKind, Seq<char>);

    open spec fn view(&self) -> (RegistryErrorKind, Seq<char>) {
        match self {
            DeclarativeRegistryError::UnknownOperation(s) => (RegistryErrorKind::UnknownOperation, s@),
            DeclarativeRegistryError::DuplicateOperation(s) => (RegistryErrorKind::DuplicateOperation, s@),
            DeclarativeRegistryError::EmptyOperation => (RegistryErrorKind::EmptyOperation, Seq::empty()),
            DeclarativeRegistryError::CoreOperation(s) => (RegistryErrorKind::CoreOperation, s@),
            DeclarativeRegistryError::DuplicatePreset(s) => (RegistryErrorKind::DuplicatePreset, s@),
            DeclarativeRegistryError::UnknownPreset(s) => (RegistryErrorKind::UnknownPreset, s@),
            DeclarativeRegistryError::ConflictingShape(s) => (RegistryErrorKind::ConflictingShape, s@),
            DeclarativeRegistryError::ConflictingFormat(s) => (RegistryErrorKind::ConflictingFormat, s@),
            DeclarativeRegistryError::ConflictingAlternatives(s) => (
                RegistryErrorKind::ConflictingAlternatives,
                s@,
            ),
            DeclarativeRegistryError::ConflictingCallTargetAttribute(s) => (
                RegistryErrorKind::ConflictingCallTargetAttribute,
                s@,
            ),
            DeclarativeRegistryError::InvalidCallTargetAttribute(s) => (
                RegistryErrorKind::InvalidCallTargetAttribute,
                s@,
            ),
            DeclarativeRegistryError::InvalidOperationAlternatives(s) => (
                RegistryErrorKind::InvalidOperationAlternatives,
                s@,
            ),
            DeclarativeRegistryError::UnresolvedImports => (RegistryErrorKind::UnresolvedImports, Seq::empty()),
        }
    }
}

/// A grammar that a named operation can borrow.
#[derive(Clone, Copy, Debug, PartialEq, Eq, Structural)]
pub enum OperationShape {
    FuncLike,
    CallLike,
}

/// No symbol-table behaviour.
pub open spec fn no_symbols(s: SymbolDescriptor) -> bool {
    !s.defines_symbol && !s.symbol_table && !s.uses_symbols
}

/// The single isolated SSA region of modules and functions.
pub open spec fn one_isolated_region(regions: Seq<RegionDescriptor>) -> bool {
    regions.len() == 1 && regions[0].kind == RegionKind::Ssacfg && regions[0].isolated_from_above
}

/// Whether a descriptor's schema, regions and symbols are those its grammar expects.
pub open spec fn schema_consistent(d: OperationDescriptor, p: AssemblyProgram) -> bool {
    let s = d.schema;
    let required = name_views(s.required_attributes@);
    match p {
        AssemblyProgram::Module => s.operands == OperandCount::Exact(0) && s.results
            == ResultCount::Exact(0) && required.len() == 0 && one_isolated_region(d.regions@)
            && d.symbols.defines_symbol && d.symbols.symbol_table && !d.symbols.uses_symbols,
        AssemblyProgram::Function => s.operands == OperandCount::Exact(0) && s.results
            == ResultCount::Exact(0) && required == seq!["sym_name"@, "function_type"@]
            && one_isolated_region(d.regions@) && d.symbols.defines_symbol && !d.symbols.symbol_table
            && !d.symbols.uses_symbols,
        AssemblyProgram::Call => s.operands == OperandCount::Variadic && s.results
            == ResultCount::Variadic && required == seq!["callee"@] && d.regions@.len() == 0
            && d.symbols.uses_symbols && !d.symbols.defines_symbol && !d.symbols.symbol_table,
        AssemblyProgram::ConditionalBranch => s.operands == OperandCount::Variadic && s.results
            == ResultCount::Exact(0) && required.len() == 0 && d.regions@.len() == 0 && no_symbols(
            d.symbols,
        ),
        AssemblyProgram::TypedAttribute => s.operands == OperandCount::Exact(0) && s.results
            == ResultCount::Exact(1) && required == seq!["value"@] && d.regions@.len() == 0
            && no_symbols(d.symbols),
        AssemblyProgram::BinaryOperands => s.operands == OperandCount::Exact(2) && s.results
            == ResultCount::Exact(1) && required.len() == 0 && d.regions@.len() == 0 && no_symbols(
            d.symbols,
        ),
        AssemblyProgram::OptionalTypedOperands => s.operands == OperandCount::Variadic && s.results
            == ResultCount::Exact(0) && required.len() == 0 && d.regions@.len() == 0 && no_symbols(
            d.symbols,
        ),
        AssemblyProgram::TypedSuccessor => s.operands == OperandCount::Exact(0) && s.results
            == ResultCount::Exact(0) && required.len() == 0 && d.regions@.len() == 0 && no_symbols(
            d.symbols,
        ),
    }
}

/// Whether a registered operation is well formed: named, with a grammar that
/// belongs to it and whose schema it follows.
pub open spec fn descriptor_consistent(d: OperationDescriptor) -> bool {
    &&& d.name@.len() > 0
    &&& d.assembly is Some
    &&& d.name@ == program_operation(d.assembly.unwrap())
    &&& schema_consistent(d, d.assembly.unwrap())
}

fn one_isolated_region_exec(regions: &Vec<RegionDescriptor>) -> (r: bool)
    ensures
        r == one_isolated_region(regions@),
{
    regions.len() == 1 && regions[0].kind == RegionKind::Ssacfg && regions[0].isolated_from_above
}

fn no_symbols_exec(s: SymbolDescriptor) -> (r: bool)
    ensures
        r == no_symbols(s),
{
    !s.defines_symbol && !s.symbol_table && !s.uses_symbols
}

impl OperationDescriptor {
    /// Whether the descriptor is well formed, as registries require.
    pub fn is_consistent(&self) -> (r: bool)
        ensures
            r == descriptor_consistent(*self),
    {
        let text = self.name.as_str();
        let bytes = text.as_bytes();
        if bytes.len() == 0 {
            proof {
                assert(bytes@ == encode_utf8(self.name@));
                encode_utf8_decode_utf8(self.name@);
                assert(encode_utf8(self.name@) =~= Seq::<u8>::empty());
                assert(valid_utf8(Seq::<u8>::empty()));
                assert(decode_utf8(Seq::<u8>::empty()) =~= Seq::<char>::empty());
            }
            return false;
        }
        proof {
            encode_utf8_decode_utf8(self.name@);
            if self.name@.len() == 0 {
                assert(self.name@ =~= Seq::<char>::empty());
                assert(encode_utf8(self.name@) =~= Seq::<u8>::empty());
            }
        }
        let program = match self.assembly {
            None => {
                return false;
            },
            Some(p) => p,
        };
        if !same_name(self.name.as_str(), program.operation_name()) {
            return false;
        }
        let s = &self.schema;
        let required = s.required_attributes.as_slice();
        let d = self;
        match program {
            AssemblyProgram::Module => {
                let none: [&str; 0] = [];
                proof {
                    assert(name_views(none@) =~= Seq::<Seq<char>>::empty());
                    if name_views(required@).len() == 0 {
                        assert(name_views(required@) =~= Seq::<Seq<char>>::empty());
                    }
                }
                let names_ok = same_names(required, &none);
                let regions_ok = one_isolated_region_exec(&d.regions);
                let r = s.operands == OperandCount::Exact(0) && s.results == ResultCount::Exact(0)
                    && names_ok && regions_ok && d.symbols.defines_symbol && d.symbols.symbol_table
                    && !d.symbols.uses_symbols;
                r
            },
            AssemblyProgram::Function => {
                let expected: [&str; 2] = ["sym_name", "function_type"];
                proof {
                    assert(name_views(expected@) =~= seq!["sym_name"@, "function_type"@]);
                }
                s.operands == OperandCount::Exact(0) && s.results == ResultCount::Exact(0)
                    && same_names(required, &expected) && one_isolated_region_exec(&d.regions)
                    && d.symbols.defines_symbol && !d.symbols.symbol_table && !d.symbols.uses_symbols
            },
            AssemblyProgram::Call => {
                let expected: [&str; 1] = ["callee"];
                proof {
                    assert(name_views(expected@) =~= seq!["callee"@]);
                }
                s.operands == OperandCount::Variadic && s.results == ResultCount::Variadic
                    && same_names(required, &expected) && d.regions.len() == 0
                    && d.symbols.uses_symbols && !d.symbols.defines_symbol && !d.symbols.symbol_table
            },
            AssemblyProgram::ConditionalBranch => {
                let none: [&str; 0] = [];
                proof {
                    assert(name_views(none@) =~= Seq::<Seq<char>>::empty());
                    if name_views(required@).len() == 0 {
                        assert(name_views(required@) =~= Seq::<Seq<char>>::empty());
                    }
                }
                s.operands == OperandCount::Variadic && s.results == ResultCount::Exact(0)
                    && same_names(required, &none) && d.regions.len() == 0 && no_symbols_exec(
                    d.symbols,
                )
            },
            AssemblyProgram::TypedAttribute => {
                let expected: [&str; 1] = ["value"];
                proof {
                    assert(name_views(expected@) =~= seq!["value"@]);
                }
                s.operands == OperandCount::Exact(0) && s.results == ResultCount::Exact(1)
                    && same_names(required, &expected) && d.regions.len() == 0 && no_symbols_exec(
                    d.symbols,
                )
            },
            AssemblyProgram::BinaryOperands => {
                let none: [&str; 0] = [];
                proof {
                    assert(name_views(none@) =~= Seq::<Seq<char>>::empty());
                    if name_views(required@).len() == 0 {
                        assert(name_views(required@) =~= Seq::<Seq<char>>::empty());
                    }
                }
                s.operands == OperandCount::Exact(2) && s.results == ResultCount::Exact(1)
                    && same_names(required, &none) && d.regions.len() == 0 && no_symbols_exec(
                    d.symbols,
                )
            },
            AssemblyProgram::OptionalTypedOperands => {
                let none: [&str; 0] = [];
                proof {
                    assert(name_views(none@) =~= Seq::<Seq<char>>::empty());
                    if name_views(required@).len() == 0 {
                        assert(name_views(required@) =~= Seq::<Seq<char>>::empty());
                    }
                }
                s.operands == OperandCount::Variadic && s.results == ResultCount::Exact(0)
                    && same_names(required, &none) && d.regions.len() == 0 && no_symbols_exec(
                    d.symbols,
                )
            },
            AssemblyProgram::TypedSuccessor => {
                let none: [&str; 0] = [];
                proof {
                    assert(name_views(none@) =~= Seq::<Seq<char>>::empty());
                    if name_views(required@).len() == 0 {
                        assert(name_views(required@) =~= Seq::<Seq<char>>::empty());
                    }
                }
                s.operands == OperandCount::Exact(0) && s.results == ResultCount::Exact(0)
                    && same_names(required, &none) && d.regions.len() == 0 && no_symbols_exec(
                    d.symbols,
                )
            },
        }
    }
}


/// A built-in descriptor: well formed, for grammar `p`, parsed as a dialect operation.
pub open spec fn builtin_descriptor(d: OperationDescriptor, p: AssemblyProgram) -> bool {
    descriptor_consistent(d) && d.assembly == Some(p) && d.syntax_kind
        == SyntaxKind::DialectOperation
}

/// The built-in grammars, in the order of the proving catalog.
pub open spec fn proving_programs() -> Seq<AssemblyProgram> {
    seq![
        AssemblyProgram::Module,
        AssemblyProgram::Function,
        AssemblyProgram::OptionalTypedOperands,
        AssemblyProgram::Call,
        AssemblyProgram::TypedAttribute,
        AssemblyProgram::BinaryOperands,
        AssemblyProgram::TypedSuccessor,
        AssemblyProgram::ConditionalBranch,
    ]
}

/// The module and function grammars that make up the core catalog.
pub open spec fn core_programs() -> Seq<AssemblyProgram> {
    proving_programs().subrange(0, 4)
}

/// Whether each descriptor is the built-in one for the grammar at the same place.
pub open spec fn builtins_for(ops: Seq<OperationDescriptor>, programs: Seq<AssemblyProgram>) -> bool {
    ops.len() == programs.len() && forall|i: int|
        0 <= i < ops.len() ==> builtin_descriptor(#[trigger] ops[i], programs[i])
}

fn region_list(isolated_region: bool) -> (r: Vec<RegionDescriptor>)
    ensures
        isolated_region ==> one_isolated_region(r@),
        !isolated_region ==> r@.len() == 0,
{
    let mut regions: Vec<RegionDescriptor> = Vec::new();
    if isolated_region {
        regions.push(RegionDescriptor { kind: RegionKind::Ssacfg, isolated_from_above: true });
    }
    regions
}

/// The built-in descriptor of a grammar.
pub fn builtin_operation(p: AssemblyProgram) -> (r: OperationDescriptor)
    ensures
        builtin_descriptor(r, p),
{
    let name = p.operation_name().to_owned();
    proof {
        assert(name@.len() > 0) by {
            reveal_strlit("builtin.module");
            reveal_strlit("func.func");
            reveal_strlit("func.call");
            reveal_strlit("cf.cond_br");
            reveal_strlit("arith.constant");
            reveal_strlit("arith.addi");
            reveal_strlit("func.return");
            reveal_strlit("cf.br");
        }
    }
    let mut required: Vec<&'static str> = Vec::new();
    let (operands, results, isolated, symbols) = match p {
        AssemblyProgram::Module => (
            OperandCount::Exact(0),
            ResultCount::Exact(0),
            true,
            SymbolDescriptor { defines_symbol: true, symbol_table: true, uses_symbols: false },
        ),
        AssemblyProgram::Function => {
            required.push("sym_name");
            required.push("function_type");
            (
                OperandCount::Exact(0),
                ResultCount::Exact(0),
                true,
                SymbolDescriptor { defines_symbol: true, symbol_table: false, uses_symbols: false },
            )
        },
        AssemblyProgram::Call => {
            required.push("callee");
            (
                OperandCount::Variadic,
                ResultCount::Variadic,
                false,
                SymbolDescriptor { defines_symbol: false, symbol_table: false, uses_symbols: true },
            )
        },
        AssemblyProgram::ConditionalBranch => (
            OperandCount::Variadic,
            ResultCount::Exact(0),
            false,
            SymbolDescriptor::default(),
        ),
        AssemblyProgram::TypedAttribute => {
            required.push("value");
            (OperandCount::Exact(0), ResultCount::Exact(1), false, SymbolDescriptor::default())
        },
        AssemblyProgram::BinaryOperands => (
            OperandCount::Exact(2),
            ResultCount::Exact(1),
            false,
            SymbolDescriptor::default(),
        ),
        AssemblyProgram::OptionalTypedOperands => (
            OperandCount::Variadic,
            ResultCount::Exact(0),
            false,
            SymbolDescriptor::default(),
        ),
        AssemblyProgram::TypedSuccessor => (
            OperandCount::Exact(0),
            ResultCount::Exact(0),
            false,
            SymbolDescriptor::default(),
        ),
    };
    proof {
        assert(name_views(required@) =~= (match p {
            AssemblyProgram::Function => seq!["sym_name"@, "function_type"@],
            AssemblyProgram::Call => seq!["callee"@],
            AssemblyProgram::TypedAttribute => seq!["value"@],
            _ => Seq::<Seq<char>>::empty(),
        }));
    }
    OperationDescriptor {
        name,
        syntax_kind: SyntaxKind::DialectOperation,
        assembly: Some(p),
        schema: OperationSchema { operands, results, required_attributes: required },
        regions: region_list(isolated),
        symbols,
    }
}

fn builtin_operations(programs: &[AssemblyProgram]) -> (r: Vec<OperationDescriptor>)
    ensures
        builtins_for(r@, programs@),
{
    let mut ops: Vec<OperationDescriptor> = Vec::new();
    let mut k: usize = 0;
    while k < programs.len()
        invariant
            k <= programs@.len(),
            builtins_for(ops@, programs@.subrange(0, k as int)),
        decreases programs@.len() - k,
    {
        ops.push(builtin_operation(programs[k]));
        k = k + 1;
    }
    assert(programs@.subrange(0, k as int) =~= programs@);
    ops
}

/// The operations, types and attributes that a parser and printer recognise.
pub struct DialectRegistry {
    operations: Vec<OperationDescriptor>,
    types: Vec<TypeDescriptor>,
    attributes: Vec<AttributeDescriptor>,
    operation_shapes: Option<Vec<(String, OperationShape)>>,
    module_alias: bool,
    core_catalog: bool,
}

/// The first place among `ops`, from `k` on, of an operation called `name`.
pub open spec fn find_operation(ops: Seq<OperationDescriptor>, name: Seq<char>, k: int) -> Option<int>
    decreases ops.len() - k,
{
    if k < 0 || k >= ops.len() {
        None
    } else if ops[k].name@ == name {
        Some(k)
    } else {
        find_operation(ops, name, k + 1)
    }
}

/// The first place among `ts`, from `k` on, of a type called `name`.
pub open spec fn find_type(ts: Seq<TypeDescriptor>, name: Seq<char>, k: int) -> Option<int>
    decreases ts.len() - k,
{
    if k < 0 || k >= ts.len() {
        None
    } else if ts[k].name@ == name {
        Some(k)
    } else {
        find_type(ts, name, k + 1)
    }
}

/// The first place among `ts`, from `k` on, of an attribute called `name`.
pub open spec fn find_attribute(ts: Seq<AttributeDescriptor>, name: Seq<char>, k: int) -> Option<int>
    decreases ts.len() - k,
{
    if k < 0 || k >= ts.len() {
        None
    } else if ts[k].name@ == name {
        Some(k)
    } else {
        find_attribute(ts, name, k + 1)
    }
}

/// The shape given to `name`, the first time it is named from `k` on.
pub open spec fn find_shape(shapes: Seq<(String, OperationShape)>, name: Seq<char>, k: int) -> Option<OperationShape>
    decreases shapes.len() - k,
{
    if k < 0 || k >= shapes.len() {
        None
    } else if shapes[k].0@ == name {
        Some(shapes[k].1)
    } else {
        find_shape(shapes, name, k + 1)
    }
}

impl DialectRegistry {
    pub closed spec fn spec_operations(&self) -> Seq<OperationDescriptor> {
        self.operations@
    }

    pub closed spec fn spec_types(&self) -> Seq<TypeDescriptor> {
        self.types@
    }

    pub closed spec fn spec_attributes(&self) -> Seq<AttributeDescriptor> {
        self.attributes@
    }

    pub closed spec fn spec_shapes(&self) -> Option<Seq<(String, OperationShape)>> {
        match self.operation_shapes {
            Some(v) => Some(v@),
            None => None,
        }
    }

    /// Whether `module` names `builtin.module` here.
    pub closed spec fn spec_module_alias(&self) -> bool {
        self.module_alias || self.core_catalog
    }

    /// A registry that knows nothing.
    pub fn empty() -> (r: Self)
        ensures
            r.spec_operations().len() == 0,
            r.spec_types().len() == 0,
            r.spec_attributes().len() == 0,
            r.spec_shapes() is None,
            !r.spec_module_alias(),
    {
        DialectRegistry {
            operations: Vec::new(),
            types: Vec::new(),
            attributes: Vec::new(),
            operation_shapes: None,
            module_alias: false,
            core_catalog: false,
        }
    }

    /// A registry of the given descriptors, each of which must be well formed.
    pub fn new(
        operations: Vec<OperationDescriptor>,
        types: Vec<TypeDescriptor>,
        attributes: Vec<AttributeDescriptor>,
    ) -> (r: Self)
        requires
            forall|i: int| 0 <= i < operations@.len() ==> descriptor_consistent(#[trigger] operations@[i]),
        ensures
            r.spec_operations() == operations@,
            r.spec_types() == types@,
            r.spec_attributes() == attributes@,
            r.spec_shapes() is None,
            !r.spec_module_alias(),
    {
        DialectRegistry {
            operations,
            types,
            attributes,
            operation_shapes: None,
            module_alias: false,
            core_catalog: false,
        }
    }

    /// The proving catalog: every built-in grammar.
    pub fn proving() -> (r: Self)
        ensures
            builtins_for(r.spec_operations(), proving_programs()),
            r.spec_types().len() == 0,
            r.spec_attributes().len() == 0,
            r.spec_shapes() is None,
            !r.spec_module_alias(),
    {
        let programs: [AssemblyProgram; 8] = [
            AssemblyProgram::Module,
            AssemblyProgram::Function,
            AssemblyProgram::OptionalTypedOperands,
            AssemblyProgram::Call,
            AssemblyProgram::TypedAttribute,
            AssemblyProgram::BinaryOperands,
            AssemblyProgram::TypedSuccessor,
            AssemblyProgram::ConditionalBranch,
        ];
        assert(programs@ =~= proving_programs());
        DialectRegistry {
            operations: builtin_operations(&programs),
            types: Vec::new(),
            attributes: Vec::new(),
            operation_shapes: None,
            module_alias: false,
            core_catalog: false,
        }
    }

    /// The standard module and function operations; `module` names `builtin.module`.
    pub fn core_registry() -> (r: Self)
        ensures
            builtins_for(r.spec_operations(), core_programs()),
            r.spec_types().len() == 0,
            r.spec_attributes().len() == 0,
            r.spec_shapes() is None,
            r.spec_module_alias(),
    {
        let programs: [AssemblyProgram; 4] = [
            AssemblyProgram::Module,
            AssemblyProgram::Function,
            AssemblyProgram::OptionalTypedOperands,
            AssemblyProgram::Call,
        ];
        assert(programs@ =~= core_programs());
        DialectRegistry {
            operations: builtin_operations(&programs),
            types: Vec::new(),
            attributes: Vec::new(),
            operation_shapes: None,
            module_alias: false,
            core_catalog: true,
        }
    }

    /// The first operation called `name`.
    pub fn operation(&self, name: &str) -> (r: Option<&OperationDescriptor>)
        ensures
            match find_operation(self.spec_operations(), name@, 0) {
                Some(i) => r == Some(&self.spec_operations()[i]),
                None => r is None,
            },
    {
        let mut k: usize = 0;
        while k < self.operations.len()
            invariant
                k <= self.operations@.len(),
                find_operation(self.operations@, name@, 0) == find_operation(self.operations@, name@, k as int),
            decreases self.operations@.len() - k,
        {
            if same_name(self.operations[k].name.as_str(), name) {
                return Some(&self.operations[k]);
            }
            k = k + 1;
        }
        None
    }

    /// The names of the operations, in order.
    pub fn operation_names(&self) -> (r: Vec<&str>)
        ensures
            r@.len() == self.spec_operations().len(),
            forall|i: int| 0 <= i < r@.len() ==> (#[trigger] r@[i])@ == self.spec_operations()[i].name@,
    {
        let mut names: Vec<&str> = Vec::new();
        let mut k: usize = 0;
        while k < self.operations.len()
            invariant
                k <= self.operations@.len(),
                names@.len() == k,
                forall|i: int| 0 <= i < k ==> (#[trigger] names@[i])@ == self.operations@[i].name@,
            decreases self.operations@.len() - k,
        {
            names.push(self.operations[k].name.as_str());
            k = k + 1;
        }
        names
    }

    /// The shape that a declarative registry gives to `name`.
    pub fn operation_shape(&self, name: &str) -> (r: Option<OperationShape>)
        ensures
            r == (match self.spec_shapes() {
                Some(shapes) => find_shape(shapes, name@, 0),
                None => None,
            }),
    {
        let shapes = match &self.operation_shapes {
            None => {
                return None;
            },
            Some(shapes) => shapes,
        };
        let mut k: usize = 0;
        while k < shapes.len()
            invariant
                k <= shapes@.len(),
                self.spec_shapes() == Some(shapes@),
                find_shape(shapes@, name@, 0) == find_shape(shapes@, name@, k as int),
            decreases shapes@.len() - k,
        {
            if same_name(shapes[k].0.as_str(), name) {
                return Some(shapes[k].1);
            }
            k = k + 1;
        }
        None
    }

    /// The first type called `name`.
    pub fn type_descriptor(&self, name: &str) -> (r: Option<&TypeDescriptor>)
        ensures
            match find_type(self.spec_types(), name@, 0) {
                Some(i) => r == Some(&self.spec_types()[i]),
                None => r is None,
            },
    {
        let mut k: usize = 0;
        while k < self.types.len()
            invariant
                k <= self.types@.len(),
                find_type(self.types@, name@, 0) == find_type(self.types@, name@, k as int),
            decreases self.types@.len() - k,
        {
            if same_name(self.types[k].name.as_str(), name) {
                return Some(&self.types[k]);
            }
            k = k + 1;
        }
        None
    }

    /// The first attribute called `name`.
    pub fn attribute_descriptor(&self, name: &str) -> (r: Option<&AttributeDescriptor>)
        ensures
            match find_attribute(self.spec_attributes(), name@, 0) {
                Some(i) => r == Some(&self.spec_attributes()[i]),
                None => r is None,
            },
    {
        let mut k: usize = 0;
        while k < self.attributes.len()
            invariant
                k <= self.attributes@.len(),
                find_attribute(self.attributes@, name@, 0) == find_attribute(
                    self.attributes@,
                    name@,
                    k as int,
                ),
            decreases self.attributes@.len() - k,
        {
            if same_name(self.attributes[k].name.as_str(), name) {
                return Some(&self.attributes[k]);
            }
            k = k + 1;
        }
        None
    }

    /// Region `index` of `operation`, or the default region when either is unknown.
    pub fn region(&self, operation: &str, index: usize) -> (r: RegionDescriptor)
        ensures
            r == (match find_operation(self.spec_operations(), operation@, 0) {
                Some(i) => if index < self.spec_operations()[i].regions@.len() {
                    self.spec_operations()[i].regions@[index as int]
                } else {
                    RegionDescriptor { kind: RegionKind::Ssacfg, isolated_from_above: false }
                },
                None => RegionDescriptor { kind: RegionKind::Ssacfg, isolated_from_above: false },
            }),
    {
        match self.operation(operation) {
            Some(descriptor) => if index < descriptor.regions.len() {
                descriptor.regions[index]
            } else {
                RegionDescriptor::default()
            },
            None => RegionDescriptor::default(),
        }
    }

    /// The symbol behaviour of `operation`, or none when it is unknown.
    pub fn symbols(&self, operation: &str) -> (r: SymbolDescriptor)
        ensures
            r == (match find_operation(self.spec_operations(), operation@, 0) {
                Some(i) => self.spec_operations()[i].symbols,
                None => SymbolDescriptor { defines_symbol: false, symbol_table: false, uses_symbols: false },
            }),
    {
        match self.operation(operation) {
            Some(descriptor) => descriptor.symbols,
            None => SymbolDescriptor::default(),
        }
    }

    /// The operation that a custom spelling names: itself, or `builtin.module`
    /// for `module` where that alias holds.
    pub fn custom_operation(&self, spelling: &str) -> (r: Option<&OperationDescriptor>)
        ensures
            match find_operation(self.spec_operations(), spelling@, 0) {
                Some(i) => r == Some(&self.spec_operations()[i]),
                None => if spelling@ == "module"@ && self.spec_module_alias() {
                    match find_operation(self.spec_operations(), "builtin.module"@, 0) {
                        Some(i) => r == Some(&self.spec_operations()[i]),
                        None => r is None,
                    }
                } else {
                    r is None
                },
            },
    {
        if let Some(descriptor) = self.operation(spelling) {
            return Some(descriptor);
        }
        if same_name(spelling, "module") && (self.module_alias || self.core_catalog) {
            self.operation("builtin.module")
        } else {
            None
        }
    }
}


/// What is wrong with a named operation shape.
#[derive(Clone, Copy, Debug, PartialEq, Eq, Structural)]
pub enum ShapeProblem {
    Empty,
    Core,
    Duplicate,
}

/// Names that core operations already use, `module` among them.
pub open spec fn is_core_name(n: Seq<char>) -> bool {
    n == "builtin.module"@ || n == "func.func"@ || n == "func.return"@ || n == "func.call"@ || n
        == "module"@
}

/// The first problem among the named shapes from `k` on, and where it is.
pub open spec fn shape_problem(entries: Seq<(&str, OperationShape)>, k: int) -> Option<(int, ShapeProblem)>
    decreases entries.len() - k,
{
    if k < 0 || k >= entries.len() {
        None
    } else if entries[k].0@.len() == 0 {
        Some((k, ShapeProblem::Empty))
    } else if is_core_name(entries[k].0@) {
        Some((k, ShapeProblem::Core))
    } else if exists|j: int| 0 <= j < k && entries[j].0@ == entries[k].0@ {
        Some((k, ShapeProblem::Duplicate))
    } else {
        shape_problem(entries, k + 1)
    }
}

/// Whether `e` reports `problem` about the operation `name`.
pub open spec fn reports_shape_problem(e: DeclarativeRegistryError, problem: ShapeProblem, name: Seq<char>) -> bool {
    match problem {
        ShapeProblem::Empty => e == DeclarativeRegistryError::EmptyOperation,
        ShapeProblem::Core => e matches DeclarativeRegistryError::CoreOperation(s) && s@ == name,
        ShapeProblem::Duplicate => e matches DeclarativeRegistryError::DuplicateOperation(s) && s@
            == name,
    }
}

fn is_core_name_exec(name: &str) -> (r: bool)
    ensures
        r == is_core_name(name@),
{
    same_name(name, "builtin.module") || same_name(name, "func.func") || same_name(
        name,
        "func.return",
    ) || same_name(name, "func.call") || same_name(name, "module")
}

fn is_empty_name(name: &str) -> (r: bool)
    ensures
        r == (name@.len() == 0),
{
    let bytes = name.as_bytes();
    proof {
        encode_utf8_decode_utf8(name@);
        if name@.len() == 0 {
            assert(name@ =~= Seq::<char>::empty());
            assert(encode_utf8(name@) =~= Seq::<u8>::empty());
        }
        if bytes@.len() == 0 {
            assert(encode_utf8(name@) =~= Seq::<u8>::empty());
            assert(valid_utf8(Seq::<u8>::empty()));
            assert(decode_utf8(Seq::<u8>::empty()) =~= Seq::<char>::empty());
        }
    }
    bytes.len() == 0
}

/// The first place from `i` on where the proving catalog has an operation called `n`.
pub open spec fn proving_index_from(n: Seq<char>, i: int) -> Option<int>
    decreases 8 - i,
{
    if i < 0 || i >= 8 {
        None
    } else if program_operation(proving_programs()[i]) == n {
        Some(i)
    } else {
        proving_index_from(n, i + 1)
    }
}

/// Where the proving catalog has an operation called `n`, if it does.
pub open spec fn proving_index(n: Seq<char>) -> Option<int> {
    proving_index_from(n, 0)
}

/// A copy of a list of named shapes.
fn copy_shape_entries(v: &Vec<(String, OperationShape)>) -> (r: Vec<(String, OperationShape)>)
    ensures
        shape_entries(r@) == shape_entries(v@),
{
    let mut out: Vec<(String, OperationShape)> = Vec::new();
    let mut i: usize = 0;
    while i < v.len()
        invariant
            i <= v@.len(),
            shape_entries(out@) == shape_entries(v@).take(i as int),
        decreases v@.len() - i,
    {
        let e = (v[i].0.clone(), v[i].1);
        let ghost before = out@;
        out.push(e);
        proof {
            assert(out@ == before.push(e));
            assert(shape_entries(out@) =~= shape_entries(before).push((e.0@, e.1)));
            assert(shape_entries(v@).take(i + 1) =~= shape_entries(v@).take(i as int).push(
                shape_entries(v@)[i as int],
            ));
        }
        i = i + 1;
    }
    proof {
        assert(shape_entries(v@).take(i as int) =~= shape_entries(v@));
    }
    out
}

/// The first problem among named shapes from `k` on, and where it is: an empty
/// name, a core operation's name, or a name given before.
pub open spec fn named_shape_problem(entries: Seq<(Seq<char>, OperationShape)>, k: int) -> Option<
    (int, ShapeProblem),
>
    decreases entries.len() - k,
{
    if k < 0 || k >= entries.len() {
        None
    } else if entries[k].0.len() == 0 {
        Some((k, ShapeProblem::Empty))
    } else if is_core_name(entries[k].0) {
        Some((k, ShapeProblem::Core))
    } else if exists|j: int| 0 <= j < k && entries[j].0 == entries[k].0 {
        Some((k, ShapeProblem::Duplicate))
    } else {
        named_shape_problem(entries, k + 1)
    }
}

/// The named shapes a registry already holds.
pub open spec fn held_shapes(shapes: Option<Seq<(String, OperationShape)>>) -> Seq<(Seq<char>, OperationShape)> {
    match shapes {
        Some(s) => shape_entries(s),
        None => seq![],
    }
}

/// The first unknown (`true`) or repeated (`false`) name from `k` on, given the
/// catalog entries already chosen.
pub open spec fn declarative_problem(names: Seq<Seq<char>>, k: int, chosen: Set<int>) -> Option<(int, bool)>
    decreases names.len() - k,
{
    if k < 0 || k >= names.len() {
        None
    } else {
        match proving_index(names[k]) {
            None => Some((k, true)),
            Some(i) => if chosen.contains(i) {
                Some((k, false))
            } else {
                declarative_problem(names, k + 1, chosen.insert(i))
            },
        }
    }
}

/// The catalog entries chosen by the names from `k` on, given those already chosen.
pub open spec fn declarative_choice(names: Seq<Seq<char>>, k: int, chosen: Set<int>) -> Set<int>
    decreases names.len() - k,
{
    if k < 0 || k >= names.len() {
        chosen
    } else {
        match proving_index(names[k]) {
            None => chosen,
            Some(i) => declarative_choice(names, k + 1, chosen.insert(i)),
        }
    }
}

/// The chosen grammars from catalog place `i` on, in catalog order.
pub open spec fn chosen_programs(chosen: Set<int>, i: int) -> Seq<AssemblyProgram>
    decreases 8 - i,
{
    if i < 0 || i >= 8 {
        seq![]
    } else if chosen.contains(i) {
        seq![proving_programs()[i]] + chosen_programs(chosen, i + 1)
    } else {
        chosen_programs(chosen, i + 1)
    }
}

fn proving_programs_exec() -> (r: [AssemblyProgram; 8])
    ensures
        r@ == proving_programs(),
{
    let programs: [AssemblyProgram; 8] = [
        AssemblyProgram::Module,
        AssemblyProgram::Function,
        AssemblyProgram::OptionalTypedOperands,
        AssemblyProgram::Call,
        AssemblyProgram::TypedAttribute,
        AssemblyProgram::BinaryOperands,
        AssemblyProgram::TypedSuccessor,
        AssemblyProgram::ConditionalBranch,
    ];
    assert(programs@ =~= proving_programs());
    programs
}

fn proving_index_exec(name: &str) -> (r: Option<usize>)
    ensures
        match r {
            Some(i) => proving_index(name@) == Some(i as int) && i < 8,
            None => proving_index(name@) is None,
        },
{
    let programs = proving_programs_exec();
    let mut i: usize = 0;
    while i < 8
        invariant
            i <= 8,
            programs@ == proving_programs(),
            proving_index(name@) == proving_index_from(name@, i as int),
        decreases 8 - i,
    {
        if same_name(name, programs[i].operation_name()) {
            return Some(i);
        }
        i = i + 1;
    }
    None
}

/// Whether `shapes` holds the names and shapes of `entries`, in order.
pub open spec fn mirrors_shapes(shapes: Seq<(String, OperationShape)>, entries: Seq<(&str, OperationShape)>) -> bool {
    shapes.len() == entries.len() && forall|i: int|
        0 <= i < shapes.len() ==> (#[trigger] shapes[i]).0@ == entries[i].0@ && shapes[i].1
            == entries[i].1
}

impl DialectRegistry {
    /// The core catalog plus caller-named operations that borrow a built-in shape.
    pub fn with_operation_shapes(operation_shapes: &[(&str, OperationShape)]) -> (r: Result<
        Self,
        DeclarativeRegistryError,
    >)
        ensures
            match shape_problem(operation_shapes@, 0) {
                Some((k, problem)) => r matches Err(e) && reports_shape_problem(
                    e,
                    problem,
                    operation_shapes@[k].0@,
                ),
                None => r matches Ok(registry) && ({
                    &&& builtins_for(registry.spec_operations(), core_programs())
                    &&& registry.spec_types().len() == 0
                    &&& registry.spec_attributes().len() == 0
                    &&& registry.spec_module_alias()
                    &&& registry.spec_shapes() is Some
                    &&& mirrors_shapes(registry.spec_shapes().unwrap(), operation_shapes@)
                }),
            },
    {
        let mut shapes: Vec<(String, OperationShape)> = Vec::new();
        let mut k: usize = 0;
        while k < operation_shapes.len()
            invariant
                k <= operation_shapes@.len(),
                shapes@.len() == k,
                forall|i: int|
                    0 <= i < k ==> (#[trigger] shapes@[i]).0@ == operation_shapes@[i].0@ && shapes@[i].1
                        == operation_shapes@[i].1,
                shape_problem(operation_shapes@, 0) == shape_problem(operation_shapes@, k as int),
            decreases operation_shapes@.len() - k,
        {
            let (name, shape) = operation_shapes[k];
            if is_empty_name(name) {
                return Err(DeclarativeRegistryError::EmptyOperation);
            }
            if is_core_name_exec(name) {
                return Err(DeclarativeRegistryError::CoreOperation(name.to_owned()));
            }
            let mut j: usize = 0;
            while j < shapes.len()
                invariant
                    j <= shapes@.len(),
                    shapes@.len() == k,
                    k < operation_shapes@.len(),
                    name == operation_shapes@[k as int].0,
                    name@.len() > 0,
                    !is_core_name(name@),
                    shape_problem(operation_shapes@, 0) == shape_problem(operation_shapes@, k as int),
                    forall|i: int|
                        0 <= i < k ==> (#[trigger] shapes@[i]).0@ == operation_shapes@[i].0@,
                    forall|i: int| 0 <= i < j ==> operation_shapes@[i].0@ != name@,
                decreases shapes@.len() - j,
            {
                if same_name(shapes[j].0.as_str(), name) {
                    assert(operation_shapes@[j as int].0@ == operation_shapes@[k as int].0@);
                    return Err(DeclarativeRegistryError::DuplicateOperation(name.to_owned()));
                }
                j = j + 1;
            }
            shapes.push((name.to_owned(), shape));
            k = k + 1;
        }
        Ok(DialectRegistry {
            operations: {
                let programs: [AssemblyProgram; 4] = [
                    AssemblyProgram::Module,
                    AssemblyProgram::Function,
                    AssemblyProgram::OptionalTypedOperands,
                    AssemblyProgram::Call,
                ];
                assert(programs@ =~= core_programs());
                builtin_operations(&programs)
            },
            types: Vec::new(),
            attributes: Vec::new(),
            operation_shapes: Some(shapes),
            module_alias: true,
            core_catalog: false,
        })
    }

    /// This registry with more caller-named operations that borrow a built-in
    /// shape, after those it holds: an empty name, a core operation's name and
    /// a name given twice are refused, as [`named_shape_problem`] says.
    pub fn extend_operation_shapes(self, shapes: &Vec<(String, OperationShape)>) -> (r: Result<
        Self,
        DeclarativeRegistryError,
    >)
        ensures
            ({
                let held = held_shapes(self.spec_shapes());
                let all = held + shape_entries(shapes@);
                match named_shape_problem(all, held.len() as int) {
                    Some((k, problem)) => r matches Err(e) && reports_shape_problem(e, problem, all[k].0),
                    None => r matches Ok(reg) && (reg.spec_operations() == self.spec_operations()
                        && reg.spec_types() == self.spec_types() && reg.spec_attributes()
                        == self.spec_attributes() && reg.spec_module_alias()
                        == self.spec_module_alias() && reg.spec_shapes() is Some
                        && shape_entries(reg.spec_shapes()->0) == all),
                }
            }),
    {
        let ghost held = held_shapes(self.spec_shapes());
        let ghost full = held + shape_entries(shapes@);
        let mut all: Vec<(String, OperationShape)> = match &self.operation_shapes {
            Some(v) => copy_shape_entries(v),
            None => Vec::new(),
        };
        proof {
            assert(shape_entries(all@) =~= held);
        }
        let start = all.len();
        let mut k: usize = 0;
        while k < shapes.len()
            invariant
                start == held.len(),
                held == held_shapes(self.spec_shapes()),
                full == held + shape_entries(shapes@),
                k <= shapes@.len(),
                shape_entries(all@) == full.take(start + k),
                named_shape_problem(full, start as int) == named_shape_problem(full, start + k),
            decreases shapes@.len() - k,
        {
            let name = &shapes[k].0;
            assert(shape_entries(shapes@)[k as int] == (name@, shapes@[k as int].1));
            assert(full[start + k] == (name@, shapes@[k as int].1));
            if is_empty_name(name.as_str()) {
                assert(full[start + k].0.len() == 0);
                assert(named_shape_problem(full, start + k) == Some((start + k, ShapeProblem::Empty)));
                assert(named_shape_problem(full, held.len() as int) == Some((start + k, ShapeProblem::Empty)));
                return Err(DeclarativeRegistryError::EmptyOperation);
            }
            if is_core_name_exec(name.as_str()) {
                return Err(DeclarativeRegistryError::CoreOperation(name.clone()));
            }
            let mut j: usize = 0;
            while j < all.len()
                invariant
                    start == held.len(),
                    k < shapes@.len(),
                    full == held + shape_entries(shapes@),
                    j <= all@.len(),
                    held == held_shapes(self.spec_shapes()),
                    named_shape_problem(full, start as int) == named_shape_problem(full, start + k),
                    full[start + k].0.len() != 0,
                    !is_core_name(full[start + k].0),
                    shape_entries(all@) == full.take(start + k),
                    name@ == full[start + k].0,
                    forall|i: int| 0 <= i < j ==> full[i].0 != name@,
                decreases all@.len() - j,
            {
                assert(shape_entries(all@).len() == start + k);
                assert(shape_entries(all@)[j as int] == full.take(start + k)[j as int]);
                assert(full.take(start + k)[j as int] == full[j as int]);
                assert(shape_entries(all@)[j as int].0 == all@[j as int].0@);
                if all[j].0 == *name {
                    assert(full[j as int].0 == full[start + k].0);
                    assert(named_shape_problem(full, start + k) == Some(
                        ((start + k) as int, ShapeProblem::Duplicate),
                    ));
                    return Err(DeclarativeRegistryError::DuplicateOperation(name.clone()));
                }
                j = j + 1;
            }
            let e = (name.clone(), shapes[k].1);
            let ghost before = all@;
            all.push(e);
            proof {
                assert(all@ == before.push(e));
                assert(shape_entries(all@) =~= shape_entries(before).push((e.0@, e.1)));
                assert(full.take(start + k + 1) =~= full.take(start + k).push(full[start + k]));
            }
            k = k + 1;
        }
        proof {
            assert(full.take(start + k) =~= full);
        }
        let DialectRegistry { operations, types, attributes, operation_shapes: _, module_alias, core_catalog } =
            self;
        Ok(DialectRegistry {
            operations,
            types,
            attributes,
            operation_shapes: Some(all),
            module_alias,
            core_catalog,
        })
    }

    /// The proving-catalog operations that `operation_names` choose, in catalog
    /// order whatever the order of the names.
    pub fn declarative(operation_names: &[&str]) -> (r: Result<Self, DeclarativeRegistryError>)
        ensures
            match declarative_problem(name_views(operation_names@), 0, Set::empty()) {
                Some((k, unknown)) => if unknown {
                    r matches Err(DeclarativeRegistryError::UnknownOperation(s)) && s@
                        == operation_names@[k]@
                } else {
                    r matches Err(DeclarativeRegistryError::DuplicateOperation(s)) && s@
                        == operation_names@[k]@
                },
                None => r matches Ok(registry) && builtins_for(
                    registry.spec_operations(),
                    chosen_programs(declarative_choice(name_views(operation_names@), 0, Set::empty()), 0),
                ) && registry.spec_types().len() == 0 && registry.spec_attributes().len() == 0
                    && registry.spec_shapes() is None && !registry.spec_module_alias(),
            },
    {
        let mut chosen: Vec<bool> = vec![false, false, false, false, false, false, false, false];
        let ghost mut set: Set<int> = Set::empty();
        let mut k: usize = 0;
        while k < operation_names.len()
            invariant
                k <= operation_names@.len(),
                chosen@.len() == 8,
                forall|i: int| 0 <= i < 8 ==> (chosen@[i] <==> set.contains(i)),
                forall|i: int| set.contains(i) ==> 0 <= i < 8,
                declarative_problem(name_views(operation_names@), 0, Set::empty()) == declarative_problem(
                    name_views(operation_names@),
                    k as int,
                    set,
                ),
                declarative_choice(name_views(operation_names@), 0, Set::empty()) == declarative_choice(
                    name_views(operation_names@),
                    k as int,
                    set,
                ),
            decreases operation_names@.len() - k,
        {
            let name = operation_names[k];
            let index = match proving_index_exec(name) {
                None => {
                    return Err(DeclarativeRegistryError::UnknownOperation(name.to_owned()));
                },
                Some(i) => i,
            };
            if chosen[index] {
                return Err(DeclarativeRegistryError::DuplicateOperation(name.to_owned()));
            }
            chosen.set(index, true);
            proof {
                set = set.insert(index as int);
            }
            k = k + 1;
        }
        let programs = proving_programs_exec();
        let mut selected: Vec<AssemblyProgram> = Vec::new();
        let mut i: usize = 0;
        while i < 8
            invariant
                i <= 8,
                chosen@.len() == 8,
                programs@ == proving_programs(),
                forall|j: int| 0 <= j < 8 ==> (chosen@[j] <==> set.contains(j)),
                selected@ + chosen_programs(set, i as int) == chosen_programs(set, 0),
            decreases 8 - i,
        {
            let ghost before = selected@;
            if chosen[i] {
                selected.push(programs[i]);
                assert(selected@ + chosen_programs(set, i + 1) =~= before + chosen_programs(set, i as int));
            }
            i = i + 1;
        }
        assert(selected@ + Seq::<AssemblyProgram>::empty() =~= selected@);
        Ok(DialectRegistry {
            operations: builtin_operations(selected.as_slice()),
            types: Vec::new(),
            attributes: Vec::new(),
            operation_shapes: None,
            module_alias: false,
            core_catalog: false,
        })
    }
}

/// One FNV-1a step per byte.
pub open spec fn fnv_mix(hash: u64, bytes: Seq<u8>) -> u64
    decreases bytes.len(),
{
    if bytes.len() == 0 {
        hash
    } else {
        vstd::wrapping::u64_specs::wrapping_mul(
            fnv_mix(hash, bytes.drop_last()) ^ (bytes.last() as u64),
            0x100000001b3u64,
        )
    }
}

pub open spec fn flag_byte(b: bool) -> u8 {
    if b {
        1
    } else {
        0
    }
}

/// The little-endian bytes of `n`.
pub open spec fn le_bytes(n: u64) -> Seq<u8> {
    Seq::new(8, |k: int| (n >> ((8 * k) as u64)) as u8)
}

pub open spec fn shape_byte(shape: OperationShape) -> u8 {
    match shape {
        OperationShape::FuncLike => 0,
        OperationShape::CallLike => 1,
    }
}

/// The identity after mixing in the regions.
pub open spec fn regions_identity(hash: u64, regions: Seq<RegionDescriptor>) -> u64
    decreases regions.len(),
{
    if regions.len() == 0 {
        hash
    } else {
        let r = regions.last();
        fnv_mix(
            fnv_mix(regions_identity(hash, regions.drop_last()), seq![flag_byte(r.kind == RegionKind::Graph)]),
            seq![flag_byte(r.isolated_from_above)],
        )
    }
}

/// The identity after mixing in one operation: its name, symbol flags, and regions.
pub open spec fn operation_identity(hash: u64, d: OperationDescriptor) -> u64 {
    let h = fnv_mix(hash, encode_utf8(d.name@));
    let h = fnv_mix(h, seq![flag_byte(d.symbols.defines_symbol)]);
    let h = fnv_mix(h, seq![flag_byte(d.symbols.symbol_table)]);
    let h = fnv_mix(h, seq![flag_byte(d.symbols.uses_symbols)]);
    let h = fnv_mix(h, le_bytes(d.regions@.len() as u64));
    regions_identity(h, d.regions@)
}

pub open spec fn operations_identity(hash: u64, ops: Seq<OperationDescriptor>) -> u64
    decreases ops.len(),
{
    if ops.len() == 0 {
        hash
    } else {
        operation_identity(operations_identity(hash, ops.drop_last()), ops.last())
    }
}

pub open spec fn shapes_identity(hash: u64, shapes: Seq<(String, OperationShape)>) -> u64
    decreases shapes.len(),
{
    if shapes.len() == 0 {
        hash
    } else {
        fnv_mix(
            fnv_mix(shapes_identity(hash, shapes.drop_last()), encode_utf8(shapes.last().0@)),
            seq![shape_byte(shapes.last().1)],
        )
    }
}

pub open spec fn names_identity(hash: u64, names: Seq<Seq<char>>) -> u64
    decreases names.len(),
{
    if names.len() == 0 {
        hash
    } else {
        fnv_mix(names_identity(hash, names.drop_last()), encode_utf8(names.last()))
    }
}

fn mix(hash: u64, bytes: &[u8]) -> (r: u64)
    ensures
        r == fnv_mix(hash, bytes@),
{
    let mut h = hash;
    let mut k: usize = 0;
    while k < bytes.len()
        invariant
            k <= bytes@.len(),
            h == fnv_mix(hash, bytes@.subrange(0, k as int)),
        decreases bytes@.len() - k,
    {
        assert(bytes@.subrange(0, k + 1).drop_last() =~= bytes@.subrange(0, k as int));
        h = (h ^ (bytes[k] as u64)).wrapping_mul(0x100000001b3);
        k = k + 1;
    }
    assert(bytes@.subrange(0, k as int) =~= bytes@);
    h
}

fn mix_flag(hash: u64, b: bool) -> (r: u64)
    ensures
        r == fnv_mix(hash, seq![flag_byte(b)]),
{
    let byte: [u8; 1] = [if b {
        1
    } else {
        0
    }];
    assert(byte@ =~= seq![flag_byte(b)]);
    mix(hash, &byte)
}

fn le_bytes_exec(n: u64) -> (r: Vec<u8>)
    ensures
        r@ == le_bytes(n),
{
    let mut v: Vec<u8> = Vec::new();
    let mut k: u64 = 0;
    while k < 8
        invariant
            k <= 8,
            v@.len() == k,
            forall|j: int| 0 <= j < k ==> v@[j] == (n >> ((8 * j) as u64)) as u8,
        decreases 8 - k,
    {
        v.push((n >> (8 * k)) as u8);
        k = k + 1;
    }
    assert(v@ =~= le_bytes(n));
    v
}

impl DialectRegistry {
    /// An FNV-1a digest of what the registry registers: operation names, symbol
    /// flags and regions, named shapes, and type and attribute names.
    pub fn content_identity(&self) -> (r: u64)
        ensures
            r == names_identity(
                names_identity(
                    shapes_identity(
                        operations_identity(0xcbf29ce484222325u64, self.spec_operations()),
                        match self.spec_shapes() {
                            Some(shapes) => shapes,
                            None => Seq::empty(),
                        },
                    ),
                    self.spec_types().map_values(|t: TypeDescriptor| t.name@),
                ),
                self.spec_attributes().map_values(|a: AttributeDescriptor| a.name@),
            ),
    {
        let mut hash: u64 = 0xcbf29ce484222325;
        let ghost start = hash;
        let mut i: usize = 0;
        while i < self.operations.len()
            invariant
                i <= self.operations@.len(),
                hash == operations_identity(start, self.operations@.subrange(0, i as int)),
            decreases self.operations@.len() - i,
        {
            assert(self.operations@.subrange(0, i + 1).drop_last() =~= self.operations@.subrange(0, i as int));
            let d = &self.operations[i];
            hash = mix(hash, d.name.as_str().as_bytes());
            hash = mix_flag(hash, d.symbols.defines_symbol);
            hash = mix_flag(hash, d.symbols.symbol_table);
            hash = mix_flag(hash, d.symbols.uses_symbols);
            let count = le_bytes_exec(d.regions.len() as u64);
            hash = mix(hash, count.as_slice());
            let ghost before_regions = hash;
            let mut j: usize = 0;
            while j < d.regions.len()
                invariant
                    j <= d.regions@.len(),
                    hash == regions_identity(before_regions, d.regions@.subrange(0, j as int)),
                decreases d.regions@.len() - j,
            {
                assert(d.regions@.subrange(0, j + 1).drop_last() =~= d.regions@.subrange(0, j as int));
                let region = d.regions[j];
                hash = mix_flag(hash, region.kind == RegionKind::Graph);
                hash = mix_flag(hash, region.isolated_from_above);
                j = j + 1;
            }
            assert(d.regions@.subrange(0, j as int) =~= d.regions@);
            i = i + 1;
        }
        assert(self.operations@.subrange(0, i as int) =~= self.operations@);
        let ghost after_operations = hash;
        let ghost shapes_seq = match self.spec_shapes() {
            Some(shapes) => shapes,
            None => Seq::<(String, OperationShape)>::empty(),
        };
        match &self.operation_shapes {
            Some(shapes) => {
                let mut k: usize = 0;
                while k < shapes.len()
                    invariant
                        k <= shapes@.len(),
                        hash == shapes_identity(after_operations, shapes@.subrange(0, k as int)),
                    decreases shapes@.len() - k,
                {
                    assert(shapes@.subrange(0, k + 1).drop_last() =~= shapes@.subrange(0, k as int));
                    hash = mix(hash, shapes[k].0.as_str().as_bytes());
                    let byte: [u8; 1] = [match shapes[k].1 {
                        OperationShape::FuncLike => 0,
                        OperationShape::CallLike => 1,
                    }];
                    assert(byte@ =~= seq![shape_byte(shapes@[k as int].1)]);
                    hash = mix(hash, &byte);
                    k = k + 1;
                }
                assert(shapes@.subrange(0, k as int) =~= shapes@);
            },
            None => {},
        }
        let ghost after_shapes = hash;
        let ghost type_names = self.types@.map_values(|t: TypeDescriptor| t.name@);
        let mut k: usize = 0;
        while k < self.types.len()
            invariant
                k <= self.types@.len(),
                type_names == self.types@.map_values(|t: TypeDescriptor| t.name@),
                hash == names_identity(after_shapes, type_names.subrange(0, k as int)),
            decreases self.types@.len() - k,
        {
            assert(type_names.subrange(0, k + 1).drop_last() =~= type_names.subrange(0, k as int));
            hash = mix(hash, self.types[k].name.as_str().as_bytes());
            k = k + 1;
        }
        assert(type_names.subrange(0, k as int) =~= type_names);
        let ghost after_types = hash;
        let ghost attribute_names = self.attributes@.map_values(|a: AttributeDescriptor| a.name@);
        let mut k: usize = 0;
        while k < self.attributes.len()
            invariant
                k <= self.attributes@.len(),
                attribute_names == self.attributes@.map_values(|a: AttributeDescriptor| a.name@),
                hash == names_identity(after_types, attribute_names.subrange(0, k as int)),
            decreases self.attributes@.len() - k,
        {
            assert(attribute_names.subrange(0, k + 1).drop_last() =~= attribute_names.subrange(0, k as int));
            hash = mix(hash, self.attributes[k].name.as_str().as_bytes());
            k = k + 1;
        }
        assert(attribute_names.subrange(0, k as int) =~= attribute_names);
        hash
    }
}
} // verus!
