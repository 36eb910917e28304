//! The vocabulary of semantic diffs: sides, change kinds and fields, limits,
//! statistics, and errors.

use vstd::prelude::*;
use crate::dialect::{same_name, format::parse_usize};
use crate::source::TextRange;
use vstd::string::StringSliceAdditionalSpecFns;

verus! {

/// What a comparison looks at beyond structure.
#[derive(Clone, Copy, Debug, PartialEq, Eq, Structural)]
pub struct DiffOptions {
    pub compare_locations: bool,
}

impl DiffOptions {
    /// Locations are not compared.
    pub fn default() -> (r: Self)
        ensures
            !r.compare_locations,
    {
        DiffOptions { compare_locations: false }
    }
}

/// Bounds on the work and the number of changes of one comparison.
#[derive(Clone, Copy, Debug, PartialEq, Eq, Structural)]
pub struct DiffLimits {
    pub max_work: usize,
    pub max_changes: usize,
}

impl DiffLimits {
    pub fn default() -> (r: Self)
        ensures
            r.max_work == 10_000_000,
            r.max_changes == 1_000_000,
    {
        DiffLimits { max_work: 10_000_000, max_changes: 1_000_000 }
    }

    /// Limits are usable when both are positive.
    pub fn is_valid(self) -> (r: bool)
        ensures
            r == (self.max_work > 0 && self.max_changes > 0),
    {
        self.max_work > 0 && self.max_changes > 0
    }
}

/// Which of the two documents.
#[derive(Clone, Copy, Debug, PartialEq, Eq, Hash, Structural)]
pub enum DiffSide {
    Before,
    After,
}

/// How an operation changed.
#[derive(Clone, Copy, Debug, PartialEq, Eq, Hash, Structural)]
pub enum ChangeKind {
    Added,
    Removed,
    Modified,
    Moved,
}

pub open spec fn change_kind_name(k: ChangeKind) -> Seq<char> {
    match k {
        ChangeKind::Added => "added"@,
        ChangeKind::Removed => "removed"@,
        ChangeKind::Modified => "modified"@,
        ChangeKind::Moved => "moved"@,
    }
}

impl ChangeKind {
    pub fn as_str(self) -> (r: &'static str)
        ensures
            r@ == change_kind_name(self),
    {
        match self {
            ChangeKind::Added => "added",
            ChangeKind::Removed => "removed",
            ChangeKind::Modified => "modified",
            ChangeKind::Moved => "moved",
        }
    }

    /// The kind that `value` names.
    pub fn from_name(value: &str) -> (r: Result<ChangeKind, DiffError>)
        ensures
            match r {
                Ok(k) => change_kind_name(k) == value@,
                Err(e) => (e matches DiffError::InvalidChangeKind(s) && s@ == value@)
                    && forall|k: ChangeKind| change_kind_name(k) != value@,
            },
    {
        if same_name(value, "added") {
            Ok(ChangeKind::Added)
        } else if same_name(value, "removed") {
            Ok(ChangeKind::Removed)
        } else if same_name(value, "modified") {
            Ok(ChangeKind::Modified)
        } else if same_name(value, "moved") {
            Ok(ChangeKind::Moved)
        } else {
            Err(DiffError::InvalidChangeKind(value.to_owned()))
        }
    }
}

/// A part of an operation that a change touches.
#[derive(Clone, Copy, Debug, PartialEq, Eq, Hash, Structural)]
pub enum ChangeField {
    Name,
    Operands,
    ResultTypes,
    FunctionType,
    Attributes,
    Properties,
    Successors,
    Regions,
    Location,
    Position,
}

pub open spec fn change_field_name(f: ChangeField) -> Seq<char> {
    match f {
        ChangeField::Name => "name"@,
        ChangeField::Operands => "operands"@,
        ChangeField::ResultTypes => "result_types"@,
        ChangeField::FunctionType => "function_type"@,
        ChangeField::Attributes => "attributes"@,
        ChangeField::Properties => "properties"@,
        ChangeField::Successors => "successors"@,
        ChangeField::Regions => "regions"@,
        ChangeField::Location => "location"@,
        ChangeField::Position => "position"@,
    }
}

/// Every field, in the order changes list them.
pub open spec fn all_change_fields() -> Seq<ChangeField> {
    seq![
        ChangeField::Name,
        ChangeField::Operands,
        ChangeField::ResultTypes,
        ChangeField::FunctionType,
        ChangeField::Attributes,
        ChangeField::Properties,
        ChangeField::Successors,
        ChangeField::Regions,
        ChangeField::Location,
        ChangeField::Position,
    ]
}

/// The first field from place `i` of the list on whose name is `value`.
pub open spec fn field_named_from(value: Seq<char>, i: int) -> Option<ChangeField>
    decreases 10 - i,
{
    if i < 0 || i >= 10 {
        None
    } else if change_field_name(all_change_fields()[i]) == value {
        Some(all_change_fields()[i])
    } else {
        field_named_from(value, i + 1)
    }
}

impl ChangeField {
    /// Every field, in the order changes list them.
    pub fn all() -> (r: [ChangeField; 10])
        ensures
            r@ == all_change_fields(),
    {
        let fields: [ChangeField; 10] = [
            ChangeField::Name,
            ChangeField::Operands,
            ChangeField::ResultTypes,
            ChangeField::FunctionType,
            ChangeField::Attributes,
            ChangeField::Properties,
            ChangeField::Successors,
            ChangeField::Regions,
            ChangeField::Location,
            ChangeField::Position,
        ];
        assert(fields@ =~= all_change_fields());
        fields
    }

    pub fn as_str(self) -> (r: &'static str)
        ensures
            r@ == change_field_name(self),
    {
        match self {
            ChangeField::Name => "name",
            ChangeField::Operands => "operands",
            ChangeField::ResultTypes => "result_types",
            ChangeField::FunctionType => "function_type",
            ChangeField::Attributes => "attributes",
            ChangeField::Properties => "properties",
            ChangeField::Successors => "successors",
            ChangeField::Regions => "regions",
            ChangeField::Location => "location",
            ChangeField::Position => "position",
        }
    }

    /// The first field of the list whose name is `value`.
    pub fn from_name(value: &str) -> (r: Result<ChangeField, DiffError>)
        ensures
            match field_named_from(value@, 0) {
                Some(f) => r == Ok::<ChangeField, DiffError>(f),
                None => r matches Err(DiffError::InvalidField(s)) && s@ == value@,
            },
    {
        let fields = ChangeField::all();
        let mut i: usize = 0;
        while i < 10
            invariant
                i <= 10,
                fields@ == all_change_fields(),
                field_named_from(value@, 0) == field_named_from(value@, i as int),
            decreases 10 - i,
        {
            if same_name(fields[i].as_str(), value) {
                return Ok(fields[i]);
            }
            i = i + 1;
        }
        Err(DiffError::InvalidField(value.to_owned()))
    }
}

/// Each change kind has its own name, so reading back the name of a kind gives
/// that kind.
pub proof fn lemma_change_kind_names_distinct(a: ChangeKind, b: ChangeKind)
    ensures
        change_kind_name(a) == change_kind_name(b) ==> a == b,
{
    reveal_strlit("added");
    reveal_strlit("removed");
    reveal_strlit("modified");
    reveal_strlit("moved");
    if change_kind_name(a) == change_kind_name(b) {
        assert(change_kind_name(a).len() == change_kind_name(b).len());
        assert(change_kind_name(a)[0] == change_kind_name(b)[0]);
    }
}

/// Reading back the name of a field gives that field.
pub proof fn lemma_change_field_name_round_trip(f: ChangeField)
    ensures
        field_named_from(change_field_name(f), 0) == Some(f),
{
    reveal_strlit("name");
    reveal_strlit("operands");
    reveal_strlit("result_types");
    reveal_strlit("function_type");
    reveal_strlit("attributes");
    reveal_strlit("properties");
    reveal_strlit("successors");
    reveal_strlit("regions");
    reveal_strlit("location");
    reveal_strlit("position");
    reveal_with_fuel(field_named_from, 11);
    let n = change_field_name(f);
    assert forall|i: int| 0 <= i < 10 && all_change_fields()[i] != f implies change_field_name(all_change_fields()[i]) != n by {
        let g = all_change_fields()[i];
        if change_field_name(g) == n {
            assert(change_field_name(g).len() == n.len());
            assert(change_field_name(g)[0] == n[0]);
            assert(change_field_name(g)[1] == n[1]);
            assert(change_field_name(g)[2] == n[2]);
        }
    }
}

/// A change of one comparison: its place in the list and the comparison's identity.
#[derive(Clone, Copy, Debug, PartialEq, Eq, Hash, Structural)]
pub struct ChangeId {
    index: u32,
    diff: u64,
}

impl ChangeId {
    pub closed spec fn spec_index(self) -> int {
        self.index as int
    }

    pub closed spec fn spec_diff(self) -> u64 {
        self.diff
    }

    pub fn new(index: u32, diff: u64) -> (r: ChangeId)
        ensures
            r.spec_index() == index,
            r.spec_diff() == diff,
    {
        ChangeId { index, diff }
    }

    pub fn index(self) -> (r: usize)
        ensures
            r == self.spec_index(),
    {
        self.index as usize
    }
}

/// Where a changed operation sits in its document.
#[derive(Clone, Debug)]
pub struct Endpoint {
    pub name: String,
    pub symbol_path: Vec<String>,
    pub path: String,
    pub range: Option<TextRange>,
}

/// One side of a field difference.
#[derive(Clone, Debug)]
pub struct FieldValue {
    pub present: bool,
    pub value: Option<String>,
}

/// How one field differs between the sides.
#[derive(Clone, Debug)]
pub struct FieldDifference {
    pub path: String,
    pub before: FieldValue,
    pub after: FieldValue,
    pub comparison: &'static str,
}

/// Counts gathered while comparing.
#[derive(Clone, Copy, Debug, PartialEq, Eq, Structural)]
pub struct DiffStatistics {
    pub before_operations: usize,
    pub after_operations: usize,
    pub matched_operations: usize,
    pub ambiguous_groups: usize,
    pub bounded_fallback_groups: usize,
    pub opaque_before: usize,
    pub opaque_after: usize,
    pub work_units: usize,
}

impl DiffStatistics {
    /// All counts zero.
    pub fn default() -> (r: Self)
        ensures
            r == (DiffStatistics {
                before_operations: 0,
                after_operations: 0,
                matched_operations: 0,
                ambiguous_groups: 0,
                bounded_fallback_groups: 0,
                opaque_before: 0,
                opaque_after: 0,
                work_units: 0,
            }),
    {
        DiffStatistics {
            before_operations: 0,
            after_operations: 0,
            matched_operations: 0,
            ambiguous_groups: 0,
            bounded_fallback_groups: 0,
            opaque_before: 0,
            opaque_after: 0,
            work_units: 0,
        }
    }
}

/// Why a comparison or a query of it failed.
#[derive(Clone, Debug, PartialEq, Eq)]
pub enum DiffError {
    InvalidLimits,
    IncompleteInput { side: DiffSide },
    InvalidStructure { side: DiffSide, message: String },
    UnsupportedResource { side: DiffSide },
    WorkLimitExceeded,
    ChangeLimitExceeded,
    InvalidHandle,
    InvalidField(String),
    InvalidChangeKind(String),
}

/// The `/`-separated pieces of a path that are decimal numbers, in order.
pub open spec fn path_numbers(pieces: Seq<Seq<u8>>) -> Seq<usize>
    decreases pieces.len(),
{
    if pieces.len() == 0 {
        seq![]
    } else {
        let rest = path_numbers(pieces.drop_last());
        match parse_usize(pieces.last()) {
            Some(n) => rest.push(n),
            None => rest,
        }
    }
}

/// The numeric components of an operation path such as `0/2/1`.
pub fn path_indices(path: &str) -> (r: Vec<usize>)
    ensures
        r@ == path_numbers(crate::dialect::config::split_slashes(path.spec_bytes(), 0)),
{
    let b = path.as_bytes();
    let n = b.len();
    let ghost all = crate::dialect::config::split_slashes(b@, 0);
    let ghost mut done: Seq<Seq<u8>> = seq![];
    let mut out: Vec<usize> = Vec::new();
    let mut start: usize = 0;
    assert(done + all =~= all);
    loop
        invariant_except_break
            start <= n,
            done + crate::dialect::config::split_slashes(b@, start as int) == all,
        invariant
            n == b@.len(),
            all == crate::dialect::config::split_slashes(b@, 0),
            out@ == path_numbers(done),
        ensures
            done == all,
        decreases n - start,
    {
        let mut end = start;
        while end < n && b[end] != 0x2f
            invariant
                start <= end <= n,
                n == b@.len(),
                crate::dialect::format::find_byte(b@, start as int, 0x2f)
                    == crate::dialect::format::find_byte(b@, end as int, 0x2f),
            decreases n - end,
        {
            end = end + 1;
        }
        let piece = vstd::slice::slice_subrange(b, start, end);
        let ghost rest = if end < n {
            crate::dialect::config::split_slashes(b@, end + 1)
        } else {
            Seq::<Seq<u8>>::empty()
        };
        assert(crate::dialect::config::split_slashes(b@, start as int) =~= seq![piece@] + rest);
        let value = crate::dialect::format::parse_usize_exec(piece);
        let ghost before = done;
        proof {
            done = done.push(piece@);
            assert(done.drop_last() =~= before);
        }
        match value {
            Some(v) => {
                out.push(v);
            },
            None => {},
        }
        assert(done + rest =~= before + (seq![piece@] + rest));
        if end < n {
            start = end + 1;
        } else {
            break ;
        }
    }
    out
}

} // verus!
