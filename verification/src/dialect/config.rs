//! Registry configurations: what a JSON registry file declares, the limits on
//! loading registry graphs, and the checks on names and resource identifiers.

use vstd::prelude::*;
use crate::dialect::{DialectRegistry, OperationShape};
use crate::lexer::{self, spec_is_alnum, spec_is_alpha};
use vstd::string::StringSliceAdditionalSpecFns;

verus! {

/// A complete registry: imports, presets, selected built-ins, and caller-named
/// operations with their shapes, formats, or alternative grammars.
#[derive(Clone, Debug)]
pub struct RegistryConfig {
    pub imports: Vec<String>,
    pub presets: Vec<String>,
    pub builtins: Vec<String>,
    pub operation_shapes: Vec<OperationShapeConfig>,
    pub operation_formats: Vec<OperationFormatConfig>,
    pub operation_alternatives: Vec<OperationAlternativesConfig>,
}

/// Resource limits for loading a registry graph.
#[derive(Clone, Copy, Debug)]
pub struct RegistryLoadOptions {
    pub max_depth: usize,
    pub max_files: usize,
    pub max_edges: usize,
    pub max_bytes: usize,
}

impl RegistryLoadOptions {
    pub fn default() -> (r: Self)
        ensures
            r.max_depth == 64,
            r.max_files == 1024,
            r.max_edges == 4096,
            r.max_bytes == 16 * 1024 * 1024,
    {
        RegistryLoadOptions {
            max_depth: 64,
            max_files: 1024,
            max_edges: 4096,
            max_bytes: 16 * 1024 * 1024,
        }
    }
}

/// One named operation using an existing custom grammar.
#[derive(Clone, Debug)]
pub struct OperationShapeConfig {
    pub name: String,
    pub shape: OperationShape,
    pub callee_attribute: Option<String>,
}

/// One named operation using a format description.
#[derive(Clone, Debug)]
pub struct OperationFormatConfig {
    pub name: String,
    pub format: String,
    pub callee_attribute: Option<String>,
}

/// One named operation with alternative grammars.
#[derive(Clone, Debug)]
pub struct OperationAlternativesConfig {
    pub name: String,
    pub alternatives: Vec<OperationGrammarConfig>,
    pub callee_attribute: Option<String>,
}

/// One alternative grammar: a shape or a format description.
#[derive(Clone, Debug)]
pub struct OperationGrammarConfig {
    pub shape: Option<OperationShape>,
    pub format: Option<String>,
}

/// An attribute name: dot-separated components, each a letter or `_` followed
/// by letters, digits, or `_`.
pub open spec fn valid_attribute_name_bytes(b: Seq<u8>) -> bool {
    &&& b.len() > 0
    &&& b[b.len() - 1] != 0x2e
    &&& forall|i: int| 0 <= i < b.len() ==> #[trigger] name_byte_ok(b, i)
}

/// Byte `i` starts a component with a letter or `_`, or continues one with a
/// letter, digit, `_`, or a `.` that ends it.
pub open spec fn name_byte_ok(b: Seq<u8>, i: int) -> bool {
    if i == 0 || b[i - 1] == 0x2e {
        spec_is_alpha(b[i]) || b[i] == 0x5f
    } else {
        b[i] == 0x2e || spec_is_alnum(b[i]) || b[i] == 0x5f
    }
}

/// Whether `name` can name an attribute.
pub fn valid_attribute_name(name: &str) -> (r: bool)
    ensures
        r == valid_attribute_name_bytes(name.spec_bytes()),
{
    let b = name.as_bytes();
    let n = b.len();
    if n == 0 || b[n - 1] == 0x2e {
        return false;
    }
    let mut i: usize = 0;
    while i < n
        invariant
            n == b@.len(),
            b@ == name.spec_bytes(),
            i <= n,
            forall|k: int| 0 <= k < i ==> #[trigger] name_byte_ok(b@, k),
        decreases n - i,
    {
        let starts = i == 0 || b[i - 1] == 0x2e;
        let ok = if starts {
            lexer::is_alpha(b[i]) || b[i] == 0x5f
        } else {
            b[i] == 0x2e || lexer::is_alnum(b[i]) || b[i] == 0x5f
        };
        if !ok {
            assert(!name_byte_ok(b@, i as int));
            return false;
        }
        assert(name_byte_ok(b@, i as int));
        i = i + 1;
    }
    true
}

/// Why a resource identifier was refused.
#[derive(Clone, Copy, Debug, PartialEq, Eq, Structural)]
pub enum ResourceIdError {
    /// Empty, or starting with `/`.
    NotRelative,
    /// A `..` climbs above the package.
    EscapesPackage,
    /// Nothing but `.` and separators.
    NamesNoFile,
}

/// The `/`-separated pieces of `b` from `start` on.
pub open spec fn split_slashes(b: Seq<u8>, start: int) -> Seq<Seq<u8>>
    decreases b.len() - start,
{
    if start < 0 || start > b.len() {
        seq![]
    } else {
        match crate::dialect::format::find_byte(b, start, 0x2f) {
            Some(i) => if i < start || i >= b.len() {
                seq![]
            } else {
                seq![b.subrange(start, i)] + split_slashes(b, i + 1)
            },
            None => seq![b.subrange(start, b.len() as int)],
        }
    }
}

pub open spec fn dot() -> Seq<u8> {
    seq![0x2eu8]
}

pub open spec fn dot_dot() -> Seq<u8> {
    seq![0x2eu8, 0x2e]
}

/// The components left after resolving `.` and `..` among `pieces`, from a
/// `stack` of components kept so far; `None` when a `..` has nothing to drop.
pub open spec fn resolve_pieces(pieces: Seq<Seq<u8>>, stack: Seq<Seq<u8>>) -> Option<Seq<Seq<u8>>>
    decreases pieces.len(),
{
    if pieces.len() == 0 {
        Some(stack)
    } else {
        let p = pieces[0];
        if p.len() == 0 || p == dot() {
            resolve_pieces(pieces.drop_first(), stack)
        } else if p == dot_dot() {
            if stack.len() == 0 {
                None
            } else {
                resolve_pieces(pieces.drop_first(), stack.drop_last())
            }
        } else {
            resolve_pieces(pieces.drop_first(), stack.push(p))
        }
    }
}

/// Components joined by `/`.
pub open spec fn join_slashes(parts: Seq<Seq<u8>>) -> Seq<u8>
    decreases parts.len(),
{
    if parts.len() == 0 {
        seq![]
    } else if parts.len() == 1 {
        parts[0]
    } else {
        join_slashes(parts.drop_last()) + seq![0x2fu8] + parts.last()
    }
}

/// What a resource identifier normalizes to.
pub open spec fn normalized_resource(b: Seq<u8>) -> Result<Seq<u8>, ResourceIdError> {
    if b.len() == 0 || b[0] == 0x2f {
        Err(ResourceIdError::NotRelative)
    } else {
        match resolve_pieces(split_slashes(b, 0), seq![]) {
            None => Err(ResourceIdError::EscapesPackage),
            Some(parts) => if parts.len() == 0 {
                Err(ResourceIdError::NamesNoFile)
            } else {
                Ok(join_slashes(parts))
            },
        }
    }
}


/// The byte views of a list of byte vectors.
pub open spec fn byte_views(v: Seq<Vec<u8>>) -> Seq<Seq<u8>> {
    v.map_values(|x: Vec<u8>| x@)
}

fn find_slash(b: &[u8], from: usize) -> (r: Option<usize>)
    ensures
        match r {
            Some(i) => crate::dialect::format::find_byte(b@, from as int, 0x2f) == Some(i as int)
                && from <= i < b@.len(),
            None => crate::dialect::format::find_byte(b@, from as int, 0x2f) is None,
        },
{
    let mut i = from;
    while i < b.len()
        invariant
            from <= i,
            crate::dialect::format::find_byte(b@, from as int, 0x2f)
                == crate::dialect::format::find_byte(b@, i as int, 0x2f),
        decreases b@.len() - i,
    {
        if b[i] == 0x2f {
            return Some(i);
        }
        i = i + 1;
    }
    None
}

fn join_with_slashes(parts: &Vec<Vec<u8>>) -> (r: Vec<u8>)
    ensures
        r@ == join_slashes(byte_views(parts@)),
{
    let ghost views = byte_views(parts@);
    let mut out: Vec<u8> = Vec::new();
    let mut k: usize = 0;
    while k < parts.len()
        invariant
            k <= parts@.len(),
            views == byte_views(parts@),
            out@ == join_slashes(views.subrange(0, k as int)),
        decreases parts@.len() - k,
    {
        let ghost before = out@;
        if k > 0 {
            out.push(0x2f);
        }
        let part = &parts[k];
        let mut m: usize = 0;
        let ghost with_sep = out@;
        while m < part.len()
            invariant
                m <= part@.len(),
                out@ == with_sep + part@.subrange(0, m as int),
            decreases part@.len() - m,
        {
            out.push(part[m]);
            m = m + 1;
            assert(out@ =~= with_sep + part@.subrange(0, m as int));
        }
        assert(part@.subrange(0, m as int) =~= part@);
        let ghost next = views.subrange(0, k + 1);
        assert(next.drop_last() =~= views.subrange(0, k as int));
        assert(views[k as int] == part@);
        if k == 0 {
            assert(out@ =~= next[0]);
        } else {
            assert(out@ =~= join_slashes(next.drop_last()) + seq![0x2fu8] + next.last());
        }
        k = k + 1;
    }
    assert(views.subrange(0, k as int) =~= views);
    out
}

/// Normalizes a relative resource identifier: drops empty and `.` components,
/// resolves `..` against the components before it, and joins the rest with `/`.
pub fn normalize_resource_id(identifier: &str) -> (r: Result<Vec<u8>, ResourceIdError>)
    ensures
        match (r, normalized_resource(identifier.spec_bytes())) {
            (Ok(bytes), Ok(spec_bytes)) => bytes@ == spec_bytes,
            (Err(e), Err(spec_e)) => e == spec_e,
            _ => false,
        },
{
    normalize_resource_bytes(identifier.as_bytes())
}

/// The bytes of a resource identifier normalized, as [`normalized_resource`] says.
pub fn normalize_resource_bytes(b: &[u8]) -> (r: Result<Vec<u8>, ResourceIdError>)
    ensures
        match (r, normalized_resource(b@)) {
            (Ok(bytes), Ok(spec_bytes)) => bytes@ == spec_bytes,
            (Err(e), Err(spec_e)) => e == spec_e,
            _ => false,
        },
{
    let n = b.len();
    if n == 0 || b[0] == 0x2f {
        return Err(ResourceIdError::NotRelative);
    }
    let ghost all = split_slashes(b@, 0);
    let mut stack: Vec<Vec<u8>> = Vec::new();
    let mut start: usize = 0;
    assert(byte_views(stack@) =~= Seq::<Seq<u8>>::empty());
    loop
        invariant_except_break
            start <= n,
            resolve_pieces(all, seq![]) == resolve_pieces(split_slashes(b@, start as int), byte_views(stack@)),
        invariant
            n == b@.len(),
            n > 0 && b@[0] != 0x2f,
            all == split_slashes(b@, 0),
        ensures
            resolve_pieces(all, seq![]) == Some(byte_views(stack@)),
        decreases n - start,
    {
        let found = find_slash(b, start);
        let end = match found {
            Some(i) => i,
            None => n,
        };
        let piece = vstd::slice::slice_subrange(b, start, end);
        let ghost pieces = split_slashes(b@, start as int);
        let ghost rest = match found {
            Some(i) => split_slashes(b@, i + 1),
            None => Seq::<Seq<u8>>::empty(),
        };
        assert(pieces =~= seq![piece@] + rest);
        assert((seq![piece@] + rest).drop_first() =~= rest);
        assert((seq![piece@] + rest)[0] == piece@);
        let ghost before = byte_views(stack@);
        let is_dot = piece.len() == 1 && piece[0] == 0x2e;
        let is_dot_dot = piece.len() == 2 && piece[0] == 0x2e && piece[1] == 0x2e;
        proof {
            assert(is_dot <==> piece@ == dot()) by {
                if piece@ == dot() {
                    assert(piece@[0] == dot()[0]);
                }
                if is_dot {
                    assert(piece@ =~= dot());
                }
            }
            assert(is_dot_dot <==> piece@ == dot_dot()) by {
                if piece@ == dot_dot() {
                    assert(piece@[0] == dot_dot()[0] && piece@[1] == dot_dot()[1]);
                }
                if is_dot_dot {
                    assert(piece@ =~= dot_dot());
                }
            }
        }
        if piece.len() == 0 || is_dot {
        } else if is_dot_dot {
            if stack.len() == 0 {
                return Err(ResourceIdError::EscapesPackage);
            }
            stack.pop();
            assert(byte_views(stack@) =~= before.drop_last());
        } else {
            stack.push(crate::dialect::format::slice_to_vec(piece));
            assert(byte_views(stack@) =~= before.push(piece@));
        }
        match found {
            Some(i) => {
                start = i + 1;
            },
            None => {
                assert(resolve_pieces(rest, byte_views(stack@)) == Some(byte_views(stack@)));
                break ;
            },
        }
    }
    if stack.len() == 0 {
        return Err(ResourceIdError::NamesNoFile);
    }
    Ok(join_with_slashes(&stack))
}

/// The place of the last `/` in `b` before `n`, or -1.
pub open spec fn last_slash(b: Seq<u8>, n: int) -> int
    decreases n,
{
    if n <= 0 {
        -1
    } else if b[n - 1] == 0x2f {
        n - 1
    } else {
        last_slash(b, n - 1)
    }
}

/// What an import written in the resource `parent` names, before
/// normalization: the import under `parent`'s directory, or alone where that
/// directory is empty.
pub open spec fn joined_resource(parent: Seq<u8>, import: Seq<u8>) -> Seq<u8> {
    let cut = last_slash(parent, parent.len() as int);
    if cut <= 0 {
        import
    } else {
        parent.take(cut) + seq![0x2fu8] + import
    }
}

/// The identifier of the resource that `import`, written in the resource
/// `parent`, names: joined under `parent`'s directory, then normalized.
pub fn resolve_resource(parent: &str, import: &str) -> (r: Result<Vec<u8>, ResourceIdError>)
    ensures
        match (r, normalized_resource(joined_resource(parent.spec_bytes(), import.spec_bytes()))) {
            (Ok(bytes), Ok(spec_bytes)) => bytes@ == spec_bytes,
            (Err(e), Err(spec_e)) => e == spec_e,
            _ => false,
        },
{
    let p = parent.as_bytes();
    let q = import.as_bytes();
    let mut n = p.len();
    while n > 0 && p[n - 1] != 0x2f
        invariant
            n <= p@.len(),
            last_slash(p@, p@.len() as int) == last_slash(p@, n as int),
        decreases n,
    {
        n = n - 1;
    }
    let ghost cut = last_slash(p@, p@.len() as int);
    assert(n == 0 ==> cut == -1);
    assert(n > 0 ==> cut == n - 1);
    if n <= 1 {
        return normalize_resource_bytes(q);
    }
    let mut joined: Vec<u8> = Vec::new();
    let mut i: usize = 0;
    while i < n - 1
        invariant
            n <= p@.len(),
            i <= n - 1,
            joined@ == p@.take(i as int),
        decreases n - 1 - i,
    {
        joined.push(p[i]);
        i = i + 1;
        assert(joined@ =~= p@.take(i as int));
    }
    joined.push(0x2f);
    let ghost head = joined@;
    let mut k: usize = 0;
    while k < q.len()
        invariant
            k <= q@.len(),
            joined@ == head + q@.take(k as int),
        decreases q@.len() - k,
    {
        joined.push(q[k]);
        k = k + 1;
        assert(joined@ =~= head + q@.take(k as int));
    }
    assert(q@.take(k as int) =~= q@);
    assert(joined@ =~= p@.take(cut) + seq![0x2fu8] + q@);
    normalize_resource_bytes(joined.as_slice())
}

/// The names of the bundled presets, in the order they are listed.
pub open spec fn preset_name_list() -> Seq<Seq<char>> {
    seq![
        "stablehlo"@,
        "tosa"@,
        "scf"@,
        "linalg"@,
        "acc"@,
        "affine"@,
        "amdgpu"@,
        "amx"@,
        "arith"@,
        "arm_neon"@,
        "arm_sme"@,
        "arm_sve"@,
        "async"@,
        "bufferization"@,
        "cf"@,
        "complex"@,
        "dlti"@,
        "emitc"@,
        "func"@,
        "gpu"@,
        "index"@,
        "irdl"@,
        "llvm"@,
        "math"@,
        "memref"@,
        "ml_program"@,
        "mpi"@,
        "shard"@,
        "nvgpu"@,
        "nvvm"@,
        "omp"@,
        "pdl"@,
        "pdl_interp"@,
        "ptr"@,
        "quant"@,
        "rocdl"@,
        "shape"@,
        "sparse_tensor"@,
        "smt"@,
        "spirv"@,
        "tensor"@,
        "transform"@,
        "ub"@,
        "vector"@,
        "wasmssa"@,
        "x86vector"@,
        "xegpu"@,
        "xevm"@,
    ]
}

impl DialectRegistry {
    /// The presets that a registry configuration can name.
    pub fn preset_names() -> (r: Vec<&'static str>)
        ensures
            r@.len() == preset_name_list().len(),
            forall|i: int| 0 <= i < r@.len() ==> (#[trigger] r@[i])@ == preset_name_list()[i],
    {
        let names: Vec<&'static str> = vec![
            "stablehlo", "tosa", "scf", "linalg", "acc", "affine", "amdgpu", "amx", "arith",
            "arm_neon", "arm_sme", "arm_sve", "async", "bufferization", "cf", "complex", "dlti",
            "emitc", "func", "gpu", "index", "irdl", "llvm", "math", "memref", "ml_program", "mpi",
            "shard", "nvgpu", "nvvm", "omp", "pdl", "pdl_interp", "ptr", "quant", "rocdl", "shape",
            "sparse_tensor", "smt", "spirv", "tensor", "transform", "ub", "vector", "wasmssa",
            "x86vector", "xegpu", "xevm",
        ];
        names
    }
}

} // verus!
