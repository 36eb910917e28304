//! Expanding a registry configuration: its presets merged in, repeated and
//! conflicting registrations refused, and call-target attributes checked.
//!
//! Names are kept in the order they were first registered; a later
//! registration of a name replaces its value in place.

use vstd::prelude::*;
use vstd::utf8::encode_utf8;
use crate::dialect::{
    builtins_for, chosen_programs, declarative_choice, declarative_problem, held_shapes,
    named_shape_problem, DeclarativeRegistryError, DialectRegistry, OperationShape, RegistryErrorKind,
    ShapeProblem,
};
use crate::dialect::config::preset_name_list;
use crate::dialect::config::{
    valid_attribute_name, valid_attribute_name_bytes, OperationGrammarConfig, RegistryConfig,
};
use crate::dialect::format::{spec_parse_format, FormatCapture, OperationFormat, SpecFormatStep};

verus! {

/// Why an expansion was refused: the variant, and the name it carries.
pub type RegistryProblem = (RegistryErrorKind, Seq<char>);

/// One alternative grammar: its shape, and its format description.
pub type GrammarView = (Option<OperationShape>, Option<Seq<char>>);

/// What a configuration registers once its presets are merged in: built-in
/// operations, and per operation name its shape, format description,
/// alternative grammars and call-target attribute. No name occurs twice in any
/// of them.
pub struct SpecExpanded {
    pub builtins: Seq<Seq<char>>,
    pub shapes: Seq<(Seq<char>, OperationShape)>,
    pub formats: Seq<(Seq<char>, Seq<char>)>,
    pub alternatives: Seq<(Seq<char>, Seq<GrammarView>)>,
    pub calls: Seq<(Seq<char>, Seq<char>)>,
}

/// An expanded configuration.
#[derive(Clone, Debug)]
pub struct ExpandedRegistry {
    pub builtins: Vec<String>,
    pub shapes: Vec<(String, OperationShape)>,
    pub formats: Vec<(String, String)>,
    pub alternatives: Vec<(String, Vec<OperationGrammarConfig>)>,
    pub call_target_attributes: Vec<(String, String)>,
}

pub open spec fn texts(v: Seq<String>) -> Seq<Seq<char>> {
    v.map_values(|s: String| s@)
}

pub open spec fn grammar_view(g: OperationGrammarConfig) -> GrammarView {
    (
        g.shape,
        match g.format {
            Some(f) => Some(f@),
            None => None,
        },
    )
}

pub open spec fn grammar_views(v: Seq<OperationGrammarConfig>) -> Seq<GrammarView> {
    v.map_values(|g: OperationGrammarConfig| grammar_view(g))
}

pub open spec fn shape_entries(v: Seq<(String, OperationShape)>) -> Seq<(Seq<char>, OperationShape)> {
    v.map_values(|p: (String, OperationShape)| (p.0@, p.1))
}

pub open spec fn text_entries(v: Seq<(String, String)>) -> Seq<(Seq<char>, Seq<char>)> {
    v.map_values(|p: (String, String)| (p.0@, p.1@))
}

pub open spec fn grammar_entries(v: Seq<(String, Vec<OperationGrammarConfig>)>) -> Seq<
    (Seq<char>, Seq<GrammarView>),
> {
    v.map_values(|p: (String, Vec<OperationGrammarConfig>)| (p.0@, grammar_views(p.1@)))
}

impl View for ExpandedRegistry {
    type V = SpecExpanded;

    open spec fn view(&self) -> SpecExpanded {
        SpecExpanded {
            builtins: texts(self.builtins@),
            shapes: shape_entries(self.shapes@),
            formats: text_entries(self.formats@),
            alternatives: grammar_entries(self.alternatives@),
            calls: text_entries(self.call_target_attributes@),
        }
    }
}

/// The names of a table's entries.
pub open spec fn names_of<W>(m: Seq<(Seq<char>, W)>) -> Seq<Seq<char>> {
    m.map_values(|p: (Seq<char>, W)| p.0)
}

/// The names of a table's entries, which are held as strings.
pub open spec fn entry_names<V>(m: Seq<(String, V)>) -> Seq<Seq<char>> {
    m.map_values(|p: (String, V)| p.0@)
}

/// Whether `i` is the first place where `k` occurs in `keys`.
pub open spec fn first_at(keys: Seq<Seq<char>>, k: Seq<char>, i: int) -> bool {
    0 <= i < keys.len() && keys[i] == k && forall|j: int| 0 <= j < i ==> keys[j] != k
}

/// The first place where `k` occurs in `keys`, or -1.
pub open spec fn slot(keys: Seq<Seq<char>>, k: Seq<char>) -> int {
    if exists|i: int| first_at(keys, k, i) {
        choose|i: int| first_at(keys, k, i)
    } else {
        -1
    }
}

/// The table with `k` registered as `w`: in place where `k` is there, else at the end.
pub open spec fn put<W>(m: Seq<(Seq<char>, W)>, k: Seq<char>, w: W) -> Seq<(Seq<char>, W)> {
    let s = slot(names_of(m), k);
    if s >= 0 {
        m.update(s, (k, w))
    } else {
        m.push((k, w))
    }
}

/// As [`put`], but `None` where `k` is there with another value.
pub open spec fn put_checked<W>(m: Seq<(Seq<char>, W)>, k: Seq<char>, w: W) -> Option<
    Seq<(Seq<char>, W)>,
> {
    let s = slot(names_of(m), k);
    if s >= 0 && m[s].1 != w {
        None
    } else {
        Some(put(m, k, w))
    }
}

/// The first `n` entries of `sub` put into `m`.
pub open spec fn merge<W>(m: Seq<(Seq<char>, W)>, sub: Seq<(Seq<char>, W)>, n: nat) -> Seq<
    (Seq<char>, W),
>
    decreases n,
{
    if n == 0 || n > sub.len() {
        m
    } else {
        let before = merge(m, sub, (n - 1) as nat);
        put(before, sub[n - 1].0, sub[n - 1].1)
    }
}

/// The first `n` entries of `sub` put into `m` with [`put_checked`]: the name of
/// the first entry refused.
pub open spec fn merge_checked<W>(m: Seq<(Seq<char>, W)>, sub: Seq<(Seq<char>, W)>, n: nat) -> Result<
    Seq<(Seq<char>, W)>,
    Seq<char>,
>
    decreases n,
{
    if n == 0 || n > sub.len() {
        Ok(m)
    } else {
        match merge_checked(m, sub, (n - 1) as nat) {
            Err(k) => Err(k),
            Ok(before) => match put_checked(before, sub[n - 1].0, sub[n - 1].1) {
                Some(after) => Ok(after),
                None => Err(sub[n - 1].0),
            },
        }
    }
}

/// `s` with `k` added at the end unless it is there.
pub open spec fn add_name(s: Seq<Seq<char>>, k: Seq<char>) -> Seq<Seq<char>> {
    if s.contains(k) {
        s
    } else {
        s.push(k)
    }
}

/// The first `n` names of `sub` added to `s`.
pub open spec fn add_names(s: Seq<Seq<char>>, sub: Seq<Seq<char>>, n: nat) -> Seq<Seq<char>>
    decreases n,
{
    if n == 0 || n > sub.len() {
        s
    } else {
        add_name(add_names(s, sub, (n - 1) as nat), sub[n - 1])
    }
}

pub open spec fn nothing_expanded() -> SpecExpanded {
    SpecExpanded {
        builtins: seq![],
        shapes: seq![],
        formats: seq![],
        alternatives: seq![],
        calls: seq![],
    }
}

/// A preset's expansion merged into what came before: its shapes and
/// call-target attributes must agree with those already there; its formats and
/// alternative grammars replace earlier ones.
pub open spec fn absorb(a: SpecExpanded, e: SpecExpanded) -> Result<SpecExpanded, RegistryProblem> {
    let builtins = add_names(a.builtins, e.builtins, e.builtins.len());
    match merge_checked(a.shapes, e.shapes, e.shapes.len()) {
        Err(k) => Err((RegistryErrorKind::ConflictingShape, k)),
        Ok(shapes) => {
            let formats = merge(a.formats, e.formats, e.formats.len());
            let alternatives = merge(a.alternatives, e.alternatives, e.alternatives.len());
            match merge_checked(a.calls, e.calls, e.calls.len()) {
                Err(k) => Err((RegistryErrorKind::ConflictingCallTargetAttribute, k)),
                Ok(calls) => Ok(SpecExpanded { builtins, shapes, formats, alternatives, calls }),
            }
        },
    }
}

/// Where the preset named `k` stands in the table of presets, or -1.
pub open spec fn preset_slot(presets: Seq<(String, RegistryConfig)>, k: Seq<char>) -> int {
    slot(entry_names(presets), k)
}

/// Every preset that `names` lists, and every preset those list in turn, is
/// reached within `fuel` levels: the presets do not name each other in a cycle.
pub open spec fn presets_nest(presets: Seq<(String, RegistryConfig)>, names: Seq<String>, fuel: nat) -> bool
    decreases fuel,
{
    forall|i: int|
        0 <= i < names.len() ==> {
            let s = #[trigger] preset_slot(presets, names[i]@);
            s >= 0 ==> if fuel == 0 {
                false
            } else {
                presets_nest(presets, presets[s].1.presets@, (fuel - 1) as nat)
            }
        }
}

/// The first `n` presets of `c` expanded and merged, in order. A preset listed
/// twice, or missing from the table, is refused. `fuel` bounds how deeply
/// presets nest ([`presets_nest`]).
pub open spec fn preset_phase(
    c: RegistryConfig,
    presets: Seq<(String, RegistryConfig)>,
    fuel: nat,
    n: nat,
) -> Result<SpecExpanded, RegistryProblem>
    decreases fuel, n,
{
    if n == 0 || n > c.presets@.len() {
        Ok(nothing_expanded())
    } else {
        match preset_phase(c, presets, fuel, (n - 1) as nat) {
            Err(e) => Err(e),
            Ok(a) => {
                let name = c.presets@[n - 1]@;
                let s = preset_slot(presets, name);
                if texts(c.presets@).take(n - 1).contains(name) {
                    Err((RegistryErrorKind::DuplicatePreset, name))
                } else if s < 0 || fuel == 0 {
                    Err((RegistryErrorKind::UnknownPreset, name))
                } else {
                    match spec_expanded(presets[s].1, presets, (fuel - 1) as nat) {
                        Err(e) => Err(e),
                        Ok(e) => absorb(a, e),
                    }
                }
            },
        }
    }
}

/// The first `n` built-in names of `c` added; a name listed twice is refused.
pub open spec fn builtin_phase(c: RegistryConfig, a: SpecExpanded, n: nat) -> Result<
    SpecExpanded,
    RegistryProblem,
>
    decreases n,
{
    if n == 0 || n > c.builtins@.len() {
        Ok(a)
    } else {
        match builtin_phase(c, a, (n - 1) as nat) {
            Err(e) => Err(e),
            Ok(b) => {
                let name = c.builtins@[n - 1]@;
                if texts(c.builtins@).take(n - 1).contains(name) {
                    Err((RegistryErrorKind::DuplicateOperation, name))
                } else {
                    Ok(SpecExpanded { builtins: add_name(b.builtins, name), ..b })
                }
            },
        }
    }
}

pub open spec fn shape_names(c: RegistryConfig) -> Seq<Seq<char>> {
    c.operation_shapes@.map_values(|o: crate::dialect::config::OperationShapeConfig| o.name@)
}

pub open spec fn format_names(c: RegistryConfig) -> Seq<Seq<char>> {
    c.operation_formats@.map_values(|o: crate::dialect::config::OperationFormatConfig| o.name@)
}

pub open spec fn alternative_names(c: RegistryConfig) -> Seq<Seq<char>> {
    c.operation_alternatives@.map_values(
        |o: crate::dialect::config::OperationAlternativesConfig| o.name@,
    )
}

/// Whether a string can name a call-target attribute.
pub open spec fn attribute_ok(a: Seq<char>) -> bool {
    valid_attribute_name_bytes(encode_utf8(a))
}

/// The attribute a call-like shape takes its callee from unless one is named.
pub open spec fn callee_word() -> Seq<char> {
    seq!['c', 'a', 'l', 'l', 'e', 'e']
}

/// Whether a format description compiles and captures a `$callee`.
pub open spec fn direct_call_format(d: Seq<char>) -> bool {
    match spec_parse_format(encode_utf8(d)) {
        Ok((steps, _)) => steps.contains(SpecFormatStep::Capture(FormatCapture::Callee)),
        Err(_) => false,
    }
}

/// One operation shape registered on top of `b`.
pub open spec fn shape_step(c: RegistryConfig, b: SpecExpanded, k: int) -> Result<
    SpecExpanded,
    RegistryProblem,
> {
    let o = c.operation_shapes@[k];
    let name = o.name@;
    if shape_names(c).take(k).contains(name) {
        Err((RegistryErrorKind::DuplicateOperation, name))
    } else {
        match put_checked(b.shapes, name, o.shape) {
            None => Err((RegistryErrorKind::ConflictingShape, name)),
            Some(shapes) => {
                if o.callee_attribute is Some && (o.shape != OperationShape::CallLike
                    || !attribute_ok(o.callee_attribute->0@)) {
                    Err((RegistryErrorKind::InvalidCallTargetAttribute, name))
                } else if o.shape == OperationShape::CallLike {
                    let attribute = match o.callee_attribute {
                        Some(a) => a@,
                        None => callee_word(),
                    };
                    match put_checked(b.calls, name, attribute) {
                        None => Err((RegistryErrorKind::ConflictingCallTargetAttribute, name)),
                        Some(calls) => Ok(SpecExpanded { shapes, calls, ..b }),
                    }
                } else {
                    Ok(SpecExpanded { shapes, ..b })
                }
            },
        }
    }
}

pub open spec fn shape_phase(c: RegistryConfig, a: SpecExpanded, n: nat) -> Result<
    SpecExpanded,
    RegistryProblem,
>
    decreases n,
{
    if n == 0 || n > c.operation_shapes@.len() {
        Ok(a)
    } else {
        match shape_phase(c, a, (n - 1) as nat) {
            Err(e) => Err(e),
            Ok(b) => shape_step(c, b, n - 1),
        }
    }
}

/// One operation format registered on top of `b`.
pub open spec fn format_step(c: RegistryConfig, b: SpecExpanded, k: int) -> Result<
    SpecExpanded,
    RegistryProblem,
> {
    let o = c.operation_formats@[k];
    let name = o.name@;
    if format_names(c).take(k).contains(name) || shape_names(c).contains(name) {
        Err((RegistryErrorKind::DuplicateOperation, name))
    } else {
        match put_checked(b.formats, name, o.format@) {
            None => Err((RegistryErrorKind::ConflictingFormat, name)),
            Some(formats) => match o.callee_attribute {
                None => Ok(SpecExpanded { formats, ..b }),
                Some(a) => {
                    if !attribute_ok(a@) || !direct_call_format(o.format@) {
                        Err((RegistryErrorKind::InvalidCallTargetAttribute, name))
                    } else {
                        match put_checked(b.calls, name, a@) {
                            None => Err((RegistryErrorKind::ConflictingCallTargetAttribute, name)),
                            Some(calls) => Ok(SpecExpanded { formats, calls, ..b }),
                        }
                    }
                },
            },
        }
    }
}

pub open spec fn format_phase(c: RegistryConfig, a: SpecExpanded, n: nat) -> Result<
    SpecExpanded,
    RegistryProblem,
>
    decreases n,
{
    if n == 0 || n > c.operation_formats@.len() {
        Ok(a)
    } else {
        match format_phase(c, a, (n - 1) as nat) {
            Err(e) => Err(e),
            Ok(b) => format_step(c, b, n - 1),
        }
    }
}

/// Exactly one of a shape and a format.
pub open spec fn one_grammar(g: GrammarView) -> bool {
    g.0 is Some != g.1 is Some
}

/// At least two alternatives, each with exactly one grammar.
pub open spec fn alternatives_ok(gs: Seq<GrammarView>) -> bool {
    gs.len() >= 2 && forall|i: int| 0 <= i < gs.len() ==> #[trigger] one_grammar(gs[i])
}

/// A grammar that takes its callee from an attribute.
pub open spec fn calls_directly(g: GrammarView) -> bool {
    g.0 == Some(OperationShape::CallLike) || (g.1 is Some && direct_call_format(g.1->0))
}

/// One set of alternative grammars registered on top of `b`.
pub open spec fn alternative_step(c: RegistryConfig, b: SpecExpanded, k: int) -> Result<
    SpecExpanded,
    RegistryProblem,
> {
    let o = c.operation_alternatives@[k];
    let name = o.name@;
    let gs = grammar_views(o.alternatives@);
    if alternative_names(c).take(k).contains(name) || shape_names(c).contains(name)
        || format_names(c).contains(name) {
        Err((RegistryErrorKind::DuplicateOperation, name))
    } else if !alternatives_ok(gs) {
        Err((RegistryErrorKind::InvalidOperationAlternatives, name))
    } else {
        match put_checked(b.alternatives, name, gs) {
            None => Err((RegistryErrorKind::ConflictingAlternatives, name)),
            Some(alternatives) => match o.callee_attribute {
                None => Ok(SpecExpanded { alternatives, ..b }),
                Some(a) => {
                    if !attribute_ok(a@) || !(forall|i: int|
                        0 <= i < gs.len() ==> #[trigger] calls_directly(gs[i])) {
                        Err((RegistryErrorKind::InvalidCallTargetAttribute, name))
                    } else {
                        match put_checked(b.calls, name, a@) {
                            None => Err((RegistryErrorKind::ConflictingCallTargetAttribute, name)),
                            Some(calls) => Ok(SpecExpanded { alternatives, calls, ..b }),
                        }
                    }
                },
            },
        }
    }
}

pub open spec fn alternative_phase(c: RegistryConfig, a: SpecExpanded, n: nat) -> Result<
    SpecExpanded,
    RegistryProblem,
>
    decreases n,
{
    if n == 0 || n > c.operation_alternatives@.len() {
        Ok(a)
    } else {
        match alternative_phase(c, a, (n - 1) as nat) {
            Err(e) => Err(e),
            Ok(b) => alternative_step(c, b, n - 1),
        }
    }
}

/// What `c` registers with its presets, looked up in `presets`, merged in: the
/// presets first, in order, then its built-ins, shapes, formats and
/// alternative grammars, each refused as [`preset_phase`], [`builtin_phase`],
/// [`shape_step`], [`format_step`] and [`alternative_step`] say.
pub open spec fn spec_expanded(c: RegistryConfig, presets: Seq<(String, RegistryConfig)>, fuel: nat) -> Result<
    SpecExpanded,
    RegistryProblem,
>
    decreases fuel, c.presets@.len() + 1,
{
    match preset_phase(c, presets, fuel, c.presets@.len()) {
        Err(e) => Err(e),
        Ok(a) => match builtin_phase(c, a, c.builtins@.len()) {
            Err(e) => Err(e),
            Ok(b) => match shape_phase(c, b, c.operation_shapes@.len()) {
                Err(e) => Err(e),
                Ok(d) => match format_phase(c, d, c.operation_formats@.len()) {
                    Err(e) => Err(e),
                    Ok(f) => alternative_phase(c, f, c.operation_alternatives@.len()),
                },
            },
        },
    }
}

/// Another configuration's expansion combined with `a`: every shape, format,
/// list of alternatives and call-target attribute must agree with one already
/// there.
pub open spec fn combine(a: SpecExpanded, e: SpecExpanded) -> Result<SpecExpanded, RegistryProblem> {
    let builtins = add_names(a.builtins, e.builtins, e.builtins.len());
    match merge_checked(a.shapes, e.shapes, e.shapes.len()) {
        Err(k) => Err((RegistryErrorKind::ConflictingShape, k)),
        Ok(shapes) => match merge_checked(a.formats, e.formats, e.formats.len()) {
            Err(k) => Err((RegistryErrorKind::ConflictingFormat, k)),
            Ok(formats) => match merge_checked(a.alternatives, e.alternatives, e.alternatives.len()) {
                Err(k) => Err((RegistryErrorKind::ConflictingAlternatives, k)),
                Ok(alternatives) => match merge_checked(a.calls, e.calls, e.calls.len()) {
                    Err(k) => Err((RegistryErrorKind::ConflictingCallTargetAttribute, k)),
                    Ok(calls) => Ok(SpecExpanded { builtins, shapes, formats, alternatives, calls }),
                },
            },
        },
    }
}

/// The first `n` configurations expanded and combined, in order.
pub open spec fn combine_phase(
    configs: Seq<RegistryConfig>,
    presets: Seq<(String, RegistryConfig)>,
    n: nat,
) -> Result<SpecExpanded, RegistryProblem>
    decreases n,
{
    if n == 0 || n > configs.len() {
        Ok(nothing_expanded())
    } else {
        match combine_phase(configs, presets, (n - 1) as nat) {
            Err(e) => Err(e),
            Ok(a) => match spec_expanded(configs[n - 1], presets, presets.len()) {
                Err(e) => Err(e),
                Ok(e) => combine(a, e),
            },
        }
    }
}

/// What a configuration builds: refused while it still lists imports, else its
/// expansion.
pub open spec fn spec_build(c: RegistryConfig, presets: Seq<(String, RegistryConfig)>) -> Result<
    SpecExpanded,
    RegistryProblem,
> {
    if c.imports@.len() > 0 {
        Err((RegistryErrorKind::UnresolvedImports, Seq::empty()))
    } else {
        spec_expanded(c, presets, presets.len())
    }
}

/// What several configurations build together: refused while any still lists
/// imports, else their expansions combined in order.
pub open spec fn spec_build_many(configs: Seq<RegistryConfig>, presets: Seq<(String, RegistryConfig)>) -> Result<
    SpecExpanded,
    RegistryProblem,
> {
    if exists|i: int| 0 <= i < configs.len() && #[trigger] configs[i].imports@.len() > 0 {
        Err((RegistryErrorKind::UnresolvedImports, Seq::empty()))
    } else {
        combine_phase(configs, presets, configs.len())
    }
}

/// What the bundled preset called `name` registers.
pub open spec fn spec_from_name(name: Seq<char>, presets: Seq<(String, RegistryConfig)>) -> Result<
    SpecExpanded,
    RegistryProblem,
> {
    let s = preset_slot(presets, name);
    if s < 0 {
        Err((RegistryErrorKind::UnknownPreset, name))
    } else {
        match spec_expanded(presets[s].1, presets, (presets.len() - 1) as nat) {
            Err(e) => Err(e),
            Ok(e) => absorb(nothing_expanded(), e),
        }
    }
}

/// An exec outcome in the terms of the specification.
pub open spec fn outcome(r: Result<ExpandedRegistry, DeclarativeRegistryError>) -> Result<
    SpecExpanded,
    RegistryProblem,
> {
    match r {
        Ok(e) => Ok(e@),
        Err(e) => Err(e@),
    }
}


/// The first place of `k` is `i`.
pub(crate) proof fn lemma_first_slot(keys: Seq<Seq<char>>, k: Seq<char>, i: int)
    requires
        first_at(keys, k, i),
    ensures
        slot(keys, k) == i,
{
    let c = choose|j: int| first_at(keys, k, j);
    assert(first_at(keys, k, c));
    if c < i {
        assert(keys[c] == k);
    } else if c > i {
        assert(keys[i] == k);
    }
}

/// A name that does not occur has no place.
proof fn lemma_no_slot(keys: Seq<Seq<char>>, k: Seq<char>)
    requires
        forall|j: int| 0 <= j < keys.len() ==> keys[j] != k,
    ensures
        slot(keys, k) == -1,
{
}

/// Where `k` first occurs among the names of `m`.
pub(crate) fn find_entry<V>(m: &Vec<(String, V)>, k: &String) -> (r: Option<usize>)
    ensures
        match r {
            Some(i) => i < m@.len() && slot(entry_names(m@), k@) == i,
            None => slot(entry_names(m@), k@) == -1,
        },
{
    let mut i: usize = 0;
    while i < m.len()
        invariant
            i <= m@.len(),
            forall|j: int| 0 <= j < i ==> entry_names(m@)[j] != k@,
        decreases m@.len() - i,
    {
        if m[i].0 == *k {
            proof {
                lemma_first_slot(entry_names(m@), k@, i as int);
            }
            return Some(i);
        }
        i = i + 1;
    }
    proof {
        lemma_no_slot(entry_names(m@), k@);
    }
    None
}

/// Whether `k` is among the first `upto` strings of `v`.
pub(crate) fn lists(v: &Vec<String>, upto: usize, k: &String) -> (r: bool)
    requires
        upto <= v@.len(),
    ensures
        r == texts(v@).take(upto as int).contains(k@),
{
    let mut i: usize = 0;
    while i < upto
        invariant
            i <= upto <= v@.len(),
            forall|j: int| 0 <= j < i ==> texts(v@)[j] != k@,
        decreases upto - i,
    {
        if v[i] == *k {
            assert(texts(v@).take(upto as int)[i as int] == k@);
            return true;
        }
        i = i + 1;
    }
    assert forall|j: int| 0 <= j < texts(v@).take(upto as int).len() implies texts(v@).take(
        upto as int,
    )[j] != k@ by {}
    false
}

/// `k` added to `v` unless it is there.
pub(crate) fn add_builtin(v: &mut Vec<String>, k: &String)
    ensures
        texts(final(v)@) == add_name(texts(old(v)@), k@),
{
    let n = v.len();
    let there = lists(v, n, k);
    proof {
        assert(texts(v@).take(n as int) =~= texts(v@));
    }
    if !there {
        v.push(k.clone());
        proof {
            assert(texts(v@) =~= texts(old(v)@).push(k@));
        }
    }
}

/// `k` registered as `w`; with `checked`, refused where `k` has another shape.
pub(crate) fn put_shape(m: &mut Vec<(String, OperationShape)>, k: &String, w: OperationShape) -> (ok: bool)
    ensures
        match put_checked(shape_entries(old(m)@), k@, w) {
            Some(t) => ok && shape_entries(final(m)@) == t,
            None => !ok,
        },
{
    proof {
        assert(names_of(shape_entries(m@)) =~= entry_names(m@));
    }
    match find_entry(m, k) {
        Some(i) => {
            if m[i].1 != w {
                return false;
            }
            m.set(i, (k.clone(), w));
            proof {
                assert(shape_entries(m@) =~= shape_entries(old(m)@).update(i as int, (k@, w)));
            }
        },
        None => {
            m.push((k.clone(), w));
            proof {
                assert(shape_entries(m@) =~= shape_entries(old(m)@).push((k@, w)));
            }
        },
    }
    true
}

/// `k` registered as `w`; with `checked`, refused where `k` has another text.
pub(crate) fn put_text(m: &mut Vec<(String, String)>, k: &String, w: &String, checked: bool) -> (ok: bool)
    ensures
        checked ==> match put_checked(text_entries(old(m)@), k@, w@) {
            Some(t) => ok && text_entries(final(m)@) == t,
            None => !ok,
        },
        !checked ==> ok && text_entries(final(m)@) == put(text_entries(old(m)@), k@, w@),
{
    proof {
        assert(names_of(text_entries(m@)) =~= entry_names(m@));
    }
    match find_entry(m, k) {
        Some(i) => {
            if checked && !(m[i].1 == *w) {
                return false;
            }
            m.set(i, (k.clone(), w.clone()));
            proof {
                assert(text_entries(m@) =~= text_entries(old(m)@).update(i as int, (k@, w@)));
            }
        },
        None => {
            m.push((k.clone(), w.clone()));
            proof {
                assert(text_entries(m@) =~= text_entries(old(m)@).push((k@, w@)));
            }
        },
    }
    true
}

/// A copy of an alternative grammar.
fn copy_grammar(g: &OperationGrammarConfig) -> (r: OperationGrammarConfig)
    ensures
        grammar_view(r) == grammar_view(*g),
{
    OperationGrammarConfig {
        shape: g.shape,
        format: match &g.format {
            Some(f) => Some(f.clone()),
            None => None,
        },
    }
}

/// A copy of a list of alternative grammars.
fn copy_grammars(v: &Vec<OperationGrammarConfig>) -> (r: Vec<OperationGrammarConfig>)
    ensures
        grammar_views(r@) == grammar_views(v@),
{
    let mut out: Vec<OperationGrammarConfig> = Vec::new();
    let mut i: usize = 0;
    while i < v.len()
        invariant
            i <= v@.len(),
            grammar_views(out@) == grammar_views(v@).take(i as int),
        decreases v@.len() - i,
    {
        let g = copy_grammar(&v[i]);
        let ghost before = out@;
        out.push(g);
        proof {
            assert(out@ == before.push(g));
            assert(grammar_views(out@) =~= grammar_views(before).push(grammar_view(g)));
            assert(grammar_views(v@).take(i + 1) =~= grammar_views(v@).take(i as int).push(
                grammar_view(v@[i as int]),
            ));
        }
        i = i + 1;
    }
    proof {
        assert(grammar_views(v@).take(i as int) =~= grammar_views(v@));
    }
    out
}

/// Whether two alternative grammars are the same.
fn same_grammar(a: &OperationGrammarConfig, b: &OperationGrammarConfig) -> (r: bool)
    ensures
        r == (grammar_view(*a) == grammar_view(*b)),
{
    let shapes = match (a.shape, b.shape) {
        (Some(x), Some(y)) => x == y,
        (None, None) => true,
        _ => false,
    };
    let formats = match (&a.format, &b.format) {
        (Some(x), Some(y)) => *x == *y,
        (None, None) => true,
        _ => false,
    };
    shapes && formats
}

/// Whether two lists of alternative grammars are the same.
fn same_grammars(a: &Vec<OperationGrammarConfig>, b: &Vec<OperationGrammarConfig>) -> (r: bool)
    ensures
        r == (grammar_views(a@) == grammar_views(b@)),
{
    if a.len() != b.len() {
        assert(grammar_views(a@).len() != grammar_views(b@).len());
        return false;
    }
    let mut i: usize = 0;
    while i < a.len()
        invariant
            i <= a@.len() == b@.len(),
            forall|j: int| 0 <= j < i ==> grammar_views(a@)[j] == grammar_views(b@)[j],
        decreases a@.len() - i,
    {
        if !same_grammar(&a[i], &b[i]) {
            assert(grammar_views(a@)[i as int] != grammar_views(b@)[i as int]);
            return false;
        }
        i = i + 1;
    }
    assert(grammar_views(a@) =~= grammar_views(b@));
    true
}

/// `k` registered with the grammars `w`; with `checked`, refused where `k` has others.
pub(crate) fn put_grammars(
    m: &mut Vec<(String, Vec<OperationGrammarConfig>)>,
    k: &String,
    w: &Vec<OperationGrammarConfig>,
    checked: bool,
) -> (ok: bool)
    ensures
        checked ==> match put_checked(grammar_entries(old(m)@), k@, grammar_views(w@)) {
            Some(t) => ok && grammar_entries(final(m)@) == t,
            None => !ok,
        },
        !checked ==> ok && grammar_entries(final(m)@) == put(
            grammar_entries(old(m)@),
            k@,
            grammar_views(w@),
        ),
{
    proof {
        assert(names_of(grammar_entries(m@)) =~= entry_names(m@));
    }
    let ghost wv = grammar_views(w@);
    match find_entry(m, k) {
        Some(i) => {
            if checked && !same_grammars(&m[i].1, w) {
                return false;
            }
            m.set(i, (k.clone(), copy_grammars(w)));
            proof {
                assert(grammar_entries(m@) =~= grammar_entries(old(m)@).update(i as int, (k@, wv)));
            }
        },
        None => {
            m.push((k.clone(), copy_grammars(w)));
            proof {
                assert(grammar_entries(m@) =~= grammar_entries(old(m)@).push((k@, wv)));
            }
        },
    }
    true
}


proof fn lemma_merge_checked_stays<W>(m: Seq<(Seq<char>, W)>, sub: Seq<(Seq<char>, W)>, n: nat, n2: nat)
    requires
        n <= n2 <= sub.len(),
        merge_checked(m, sub, n) is Err,
    ensures
        merge_checked(m, sub, n2) == merge_checked(m, sub, n),
    decreases n2 - n,
{
    if n2 > n {
        lemma_merge_checked_stays(m, sub, n, (n2 - 1) as nat);
    }
}

/// Merges a sub-table into a table, registering each entry with [`put_text`].
fn merge_texts(m: &mut Vec<(String, String)>, sub: &Vec<(String, String)>, checked: bool) -> (r: Result<(), usize>)
    ensures
        checked ==> match merge_checked(text_entries(old(m)@), text_entries(sub@), sub@.len()) {
            Ok(t) => r is Ok && text_entries(final(m)@) == t,
            Err(k) => r matches Err(i) && i < sub@.len() && sub@[i as int].0@ == k,
        },
        !checked ==> r is Ok && text_entries(final(m)@) == merge(
            text_entries(old(m)@),
            text_entries(sub@),
            sub@.len(),
        ),
{
    let ghost start = text_entries(m@);
    let ghost sv = text_entries(sub@);
    let mut i: usize = 0;
    while i < sub.len()
        invariant
            i <= sub@.len(),
            sv == text_entries(sub@),
            start == text_entries(old(m)@),
            checked ==> merge_checked(start, sv, i as nat) == Ok::<_, Seq<char>>(text_entries(m@)),
            !checked ==> merge(start, sv, i as nat) == text_entries(m@),
        decreases sub@.len() - i,
    {
        let ghost before = text_entries(m@);
        let ok = put_text(m, &sub[i].0, &sub[i].1, checked);
        if !ok {
            proof {
                assert(merge_checked(start, sv, (i + 1) as nat) == Err::<Seq<(Seq<char>, Seq<char>)>, Seq<char>>(sv[i as int].0));
                lemma_merge_checked_stays(start, sv, (i + 1) as nat, sub@.len());
                assert(sv[i as int].0 == sub@[i as int].0@);
            }
            return Err(i);
        }
        i = i + 1;
    }
    Ok(())
}

/// Merges a sub-table of grammars into a table, with [`put_grammars`].
fn merge_grammars(
    m: &mut Vec<(String, Vec<OperationGrammarConfig>)>,
    sub: &Vec<(String, Vec<OperationGrammarConfig>)>,
    checked: bool,
) -> (r: Result<(), usize>)
    ensures
        checked ==> match merge_checked(grammar_entries(old(m)@), grammar_entries(sub@), sub@.len()) {
            Ok(t) => r is Ok && grammar_entries(final(m)@) == t,
            Err(k) => r matches Err(i) && i < sub@.len() && sub@[i as int].0@ == k,
        },
        !checked ==> r is Ok && grammar_entries(final(m)@) == merge(
            grammar_entries(old(m)@),
            grammar_entries(sub@),
            sub@.len(),
        ),
{
    let ghost start = grammar_entries(m@);
    let ghost sv = grammar_entries(sub@);
    let mut i: usize = 0;
    while i < sub.len()
        invariant
            i <= sub@.len(),
            sv == grammar_entries(sub@),
            start == grammar_entries(old(m)@),
            checked ==> merge_checked(start, sv, i as nat) == Ok::<_, Seq<char>>(grammar_entries(m@)),
            !checked ==> merge(start, sv, i as nat) == grammar_entries(m@),
        decreases sub@.len() - i,
    {
        let ghost before = grammar_entries(m@);
        let ok = put_grammars(m, &sub[i].0, &sub[i].1, checked);
        if !ok {
            proof {
                assert(merge_checked(start, sv, (i + 1) as nat) == Err::<
                    Seq<(Seq<char>, Seq<GrammarView>)>,
                    Seq<char>,
                >(sv[i as int].0));
                lemma_merge_checked_stays(start, sv, (i + 1) as nat, sub@.len());
                assert(sv[i as int].0 == sub@[i as int].0@);
            }
            return Err(i);
        }
        i = i + 1;
    }
    Ok(())
}

/// Merges shapes into a table, refusing a changed one.
fn merge_shapes(m: &mut Vec<(String, OperationShape)>, sub: &Vec<(String, OperationShape)>) -> (r: Result<
    (),
    usize,
>)
    ensures
        match merge_checked(shape_entries(old(m)@), shape_entries(sub@), sub@.len()) {
            Ok(t) => r is Ok && shape_entries(final(m)@) == t,
            Err(k) => r matches Err(i) && i < sub@.len() && sub@[i as int].0@ == k,
        },
{
    let ghost start = shape_entries(m@);
    let ghost sv = shape_entries(sub@);
    let mut i: usize = 0;
    while i < sub.len()
        invariant
            i <= sub@.len(),
            sv == shape_entries(sub@),
            start == shape_entries(old(m)@),
            merge_checked(start, sv, i as nat) == Ok::<_, Seq<char>>(shape_entries(m@)),
        decreases sub@.len() - i,
    {
        let ghost before = shape_entries(m@);
        let ok = put_shape(m, &sub[i].0, sub[i].1);
        if !ok {
            proof {
                assert(merge_checked(start, sv, (i + 1) as nat) == Err::<Seq<(Seq<char>, OperationShape)>, Seq<char>>(sv[i as int].0));
                lemma_merge_checked_stays(start, sv, (i + 1) as nat, sub@.len());
                assert(sv[i as int].0 == sub@[i as int].0@);
            }
            return Err(i);
        }
        i = i + 1;
    }
    Ok(())
}

/// A preset's expansion merged into `a`, as [`absorb`] says.
fn absorb_exec(a: &mut ExpandedRegistry, e: &ExpandedRegistry) -> (r: Result<(), DeclarativeRegistryError>)
    ensures
        match absorb(old(a)@, e@) {
            Ok(t) => r is Ok && final(a)@ == t,
            Err(p) => r matches Err(x) && x@ == p,
        },
{
    let ghost start = a@;
    let mut i: usize = 0;
    while i < e.builtins.len()
        invariant
            i <= e.builtins@.len(),
            start == old(a)@,
            texts(a.builtins@) == add_names(start.builtins, texts(e.builtins@), i as nat),
            a.shapes@ == old(a).shapes@,
            a.formats@ == old(a).formats@,
            a.alternatives@ == old(a).alternatives@,
            a.call_target_attributes@ == old(a).call_target_attributes@,
        decreases e.builtins@.len() - i,
    {
        add_builtin(&mut a.builtins, &e.builtins[i]);
        i = i + 1;
    }
    match merge_shapes(&mut a.shapes, &e.shapes) {
        Err(k) => {
            return Err(DeclarativeRegistryError::ConflictingShape(e.shapes[k].0.clone()));
        },
        Ok(()) => {},
    }
    let _ = merge_texts(&mut a.formats, &e.formats, false);
    let _ = merge_grammars(&mut a.alternatives, &e.alternatives, false);
    match merge_texts(&mut a.call_target_attributes, &e.call_target_attributes, true) {
        Err(k) => {
            return Err(
                DeclarativeRegistryError::ConflictingCallTargetAttribute(
                    e.call_target_attributes[k].0.clone(),
                ),
            );
        },
        Ok(()) => {},
    }
    Ok(())
}


proof fn lemma_builtin_phase_stays(c: RegistryConfig, a: SpecExpanded, n: nat, n2: nat)
    requires
        n <= n2 <= c.builtins@.len(),
        builtin_phase(c, a, n) is Err,
    ensures
        builtin_phase(c, a, n2) == builtin_phase(c, a, n),
    decreases n2 - n,
{
    if n2 > n {
        lemma_builtin_phase_stays(c, a, n, (n2 - 1) as nat);
    }
}

proof fn lemma_shape_phase_stays(c: RegistryConfig, a: SpecExpanded, n: nat, n2: nat)
    requires
        n <= n2 <= c.operation_shapes@.len(),
        shape_phase(c, a, n) is Err,
    ensures
        shape_phase(c, a, n2) == shape_phase(c, a, n),
    decreases n2 - n,
{
    if n2 > n {
        lemma_shape_phase_stays(c, a, n, (n2 - 1) as nat);
    }
}

proof fn lemma_format_phase_stays(c: RegistryConfig, a: SpecExpanded, n: nat, n2: nat)
    requires
        n <= n2 <= c.operation_formats@.len(),
        format_phase(c, a, n) is Err,
    ensures
        format_phase(c, a, n2) == format_phase(c, a, n),
    decreases n2 - n,
{
    if n2 > n {
        lemma_format_phase_stays(c, a, n, (n2 - 1) as nat);
    }
}

proof fn lemma_alternative_phase_stays(c: RegistryConfig, a: SpecExpanded, n: nat, n2: nat)
    requires
        n <= n2 <= c.operation_alternatives@.len(),
        alternative_phase(c, a, n) is Err,
    ensures
        alternative_phase(c, a, n2) == alternative_phase(c, a, n),
    decreases n2 - n,
{
    if n2 > n {
        lemma_alternative_phase_stays(c, a, n, (n2 - 1) as nat);
    }
}

proof fn lemma_preset_phase_stays(c: RegistryConfig, presets: Seq<(String, RegistryConfig)>, fuel: nat, n: nat, n2: nat)
    requires
        n <= n2 <= c.presets@.len(),
        preset_phase(c, presets, fuel, n) is Err,
    ensures
        preset_phase(c, presets, fuel, n2) == preset_phase(c, presets, fuel, n),
    decreases n2 - n,
{
    if n2 > n {
        lemma_preset_phase_stays(c, presets, fuel, n, (n2 - 1) as nat);
    }
}

/// Whether `k` names one of the first `upto` operation shapes of `c`.
fn shape_listed(c: &RegistryConfig, upto: usize, k: &String) -> (r: bool)
    requires
        upto <= c.operation_shapes@.len(),
    ensures
        r == shape_names(*c).take(upto as int).contains(k@),
{
    let mut i: usize = 0;
    while i < upto
        invariant
            i <= upto <= c.operation_shapes@.len(),
            forall|j: int| 0 <= j < i ==> shape_names(*c)[j] != k@,
        decreases upto - i,
    {
        if c.operation_shapes[i].name == *k {
            assert(shape_names(*c).take(upto as int)[i as int] == k@);
            return true;
        }
        i = i + 1;
    }
    assert forall|j: int| 0 <= j < shape_names(*c).take(upto as int).len() implies shape_names(
        *c,
    ).take(upto as int)[j] != k@ by {}
    false
}

/// Whether `k` names one of the first `upto` operation formats of `c`.
fn format_listed(c: &RegistryConfig, upto: usize, k: &String) -> (r: bool)
    requires
        upto <= c.operation_formats@.len(),
    ensures
        r == format_names(*c).take(upto as int).contains(k@),
{
    let mut i: usize = 0;
    while i < upto
        invariant
            i <= upto <= c.operation_formats@.len(),
            forall|j: int| 0 <= j < i ==> format_names(*c)[j] != k@,
        decreases upto - i,
    {
        if c.operation_formats[i].name == *k {
            assert(format_names(*c).take(upto as int)[i as int] == k@);
            return true;
        }
        i = i + 1;
    }
    assert forall|j: int| 0 <= j < format_names(*c).take(upto as int).len() implies format_names(
        *c,
    ).take(upto as int)[j] != k@ by {}
    false
}

/// Whether `k` names one of the first `upto` alternative registrations of `c`.
fn alternative_listed(c: &RegistryConfig, upto: usize, k: &String) -> (r: bool)
    requires
        upto <= c.operation_alternatives@.len(),
    ensures
        r == alternative_names(*c).take(upto as int).contains(k@),
{
    let mut i: usize = 0;
    while i < upto
        invariant
            i <= upto <= c.operation_alternatives@.len(),
            forall|j: int| 0 <= j < i ==> alternative_names(*c)[j] != k@,
        decreases upto - i,
    {
        if c.operation_alternatives[i].name == *k {
            assert(alternative_names(*c).take(upto as int)[i as int] == k@);
            return true;
        }
        i = i + 1;
    }
    assert forall|j: int| 0 <= j < alternative_names(*c).take(upto as int).len() implies alternative_names(
        *c,
    ).take(upto as int)[j] != k@ by {}
    false
}

/// Whether a format description compiles and captures a `$callee`.
fn format_calls_directly(d: &String) -> (r: bool)
    ensures
        r == direct_call_format(d@),
{
    match OperationFormat::parse(d.as_str()) {
        Ok(f) => f.captures_callee(),
        Err(_) => false,
    }
}

/// Whether a list of alternatives has at least two, each with one grammar.
fn alternatives_valid(v: &Vec<OperationGrammarConfig>) -> (r: bool)
    ensures
        r == alternatives_ok(grammar_views(v@)),
{
    if v.len() < 2 {
        return false;
    }
    let mut i: usize = 0;
    while i < v.len()
        invariant
            i <= v@.len(),
            forall|j: int| 0 <= j < i ==> #[trigger] one_grammar(grammar_views(v@)[j]),
        decreases v@.len() - i,
    {
        if v[i].shape.is_some() == v[i].format.is_some() {
            assert(!one_grammar(grammar_views(v@)[i as int]));
            return false;
        }
        assert(one_grammar(grammar_views(v@)[i as int]));
        i = i + 1;
    }
    true
}

/// Whether every alternative takes its callee from an attribute.
fn grammars_call_directly(v: &Vec<OperationGrammarConfig>) -> (r: bool)
    ensures
        r == forall|i: int| 0 <= i < v@.len() ==> #[trigger] calls_directly(grammar_views(v@)[i]),
{
    let mut i: usize = 0;
    while i < v.len()
        invariant
            i <= v@.len(),
            forall|j: int| 0 <= j < i ==> #[trigger] calls_directly(grammar_views(v@)[j]),
        decreases v@.len() - i,
    {
        let g = &v[i];
        let direct = match (g.shape, &g.format) {
            (Some(OperationShape::CallLike), _) => true,
            (_, Some(d)) => format_calls_directly(d),
            _ => false,
        };
        if !direct {
            assert(!calls_directly(grammar_views(v@)[i as int]));
            return false;
        }
        assert(calls_directly(grammar_views(v@)[i as int]));
        i = i + 1;
    }
    true
}

/// The attribute name `callee`.
fn callee_string() -> (r: String)
    ensures
        r@ == callee_word(),
{
    let word = "callee";
    proof {
        reveal_strlit("callee");
    }
    word.to_owned()
}


/// The built-in names of `c` added to `a`, as [`builtin_phase`] says.
fn builtins_exec(c: &RegistryConfig, a: &mut ExpandedRegistry) -> (r: Result<(), DeclarativeRegistryError>)
    ensures
        match builtin_phase(*c, old(a)@, c.builtins@.len()) {
            Ok(t) => r is Ok && final(a)@ == t,
            Err(p) => r matches Err(x) && x@ == p,
        },
{
    let ghost start = a@;
    let mut i: usize = 0;
    while i < c.builtins.len()
        invariant
            i <= c.builtins@.len(),
            start == old(a)@,
            builtin_phase(*c, start, i as nat) == Ok::<SpecExpanded, RegistryProblem>(a@),
        decreases c.builtins@.len() - i,
    {
        let name = &c.builtins[i];
        if lists(&c.builtins, i, name) {
            proof {
                lemma_builtin_phase_stays(*c, start, (i + 1) as nat, c.builtins@.len());
            }
            return Err(DeclarativeRegistryError::DuplicateOperation(name.clone()));
        }
        add_builtin(&mut a.builtins, name);
        i = i + 1;
    }
    Ok(())
}

/// The operation shapes of `c` registered on top of `a`, as [`shape_step`] says.
fn shapes_exec(c: &RegistryConfig, a: &mut ExpandedRegistry) -> (r: Result<(), DeclarativeRegistryError>)
    ensures
        match shape_phase(*c, old(a)@, c.operation_shapes@.len()) {
            Ok(t) => r is Ok && final(a)@ == t,
            Err(p) => r matches Err(x) && x@ == p,
        },
{
    let ghost start = a@;
    let n = c.operation_shapes.len();
    let mut i: usize = 0;
    while i < n
        invariant
            n == c.operation_shapes@.len(),
            i <= n,
            start == old(a)@,
            shape_phase(*c, start, i as nat) == Ok::<SpecExpanded, RegistryProblem>(a@),
        decreases n - i,
    {
        let o = &c.operation_shapes[i];
        let ghost b = a@;
        if shape_listed(c, i, &o.name) {
            proof {
                lemma_shape_phase_stays(*c, start, (i + 1) as nat, n as nat);
            }
            return Err(DeclarativeRegistryError::DuplicateOperation(o.name.clone()));
        }
        if !put_shape(&mut a.shapes, &o.name, o.shape) {
            proof {
                lemma_shape_phase_stays(*c, start, (i + 1) as nat, n as nat);
            }
            return Err(DeclarativeRegistryError::ConflictingShape(o.name.clone()));
        }
        let bad_attribute = match &o.callee_attribute {
            Some(attribute) => o.shape != OperationShape::CallLike || !valid_attribute_name(
                attribute.as_str(),
            ),
            None => false,
        };
        if bad_attribute {
            proof {
                lemma_shape_phase_stays(*c, start, (i + 1) as nat, n as nat);
            }
            return Err(DeclarativeRegistryError::InvalidCallTargetAttribute(o.name.clone()));
        }
        if o.shape == OperationShape::CallLike {
            let attribute = match &o.callee_attribute {
                Some(x) => x.clone(),
                None => callee_string(),
            };
            if !put_text(&mut a.call_target_attributes, &o.name, &attribute, true) {
                proof {
                    lemma_shape_phase_stays(*c, start, (i + 1) as nat, n as nat);
                }
                return Err(
                    DeclarativeRegistryError::ConflictingCallTargetAttribute(o.name.clone()),
                );
            }
        }
        proof {
            assert(shape_phase(*c, start, (i + 1) as nat) == shape_step(*c, b, i as int));
        }
        i = i + 1;
    }
    Ok(())
}

/// The operation formats of `c` registered on top of `a`, as [`format_step`] says.
fn formats_exec(c: &RegistryConfig, a: &mut ExpandedRegistry) -> (r: Result<(), DeclarativeRegistryError>)
    ensures
        match format_phase(*c, old(a)@, c.operation_formats@.len()) {
            Ok(t) => r is Ok && final(a)@ == t,
            Err(p) => r matches Err(x) && x@ == p,
        },
{
    let ghost start = a@;
    let n = c.operation_formats.len();
    let shapes = c.operation_shapes.len();
    proof {
        assert(shape_names(*c).take(shapes as int) =~= shape_names(*c));
    }
    let mut i: usize = 0;
    while i < n
        invariant
            n == c.operation_formats@.len(),
            shapes == c.operation_shapes@.len(),
            shape_names(*c).take(shapes as int) == shape_names(*c),
            i <= n,
            start == old(a)@,
            format_phase(*c, start, i as nat) == Ok::<SpecExpanded, RegistryProblem>(a@),
        decreases n - i,
    {
        let o = &c.operation_formats[i];
        let ghost b = a@;
        if format_listed(c, i, &o.name) || shape_listed(c, shapes, &o.name) {
            proof {
                lemma_format_phase_stays(*c, start, (i + 1) as nat, n as nat);
            }
            return Err(DeclarativeRegistryError::DuplicateOperation(o.name.clone()));
        }
        if !put_text(&mut a.formats, &o.name, &o.format, true) {
            proof {
                lemma_format_phase_stays(*c, start, (i + 1) as nat, n as nat);
            }
            return Err(DeclarativeRegistryError::ConflictingFormat(o.name.clone()));
        }
        match &o.callee_attribute {
            Some(attribute) => {
                if !valid_attribute_name(attribute.as_str()) || !format_calls_directly(&o.format) {
                    proof {
                        lemma_format_phase_stays(*c, start, (i + 1) as nat, n as nat);
                    }
                    return Err(
                        DeclarativeRegistryError::InvalidCallTargetAttribute(o.name.clone()),
                    );
                }
                if !put_text(&mut a.call_target_attributes, &o.name, attribute, true) {
                    proof {
                        lemma_format_phase_stays(*c, start, (i + 1) as nat, n as nat);
                    }
                    return Err(
                        DeclarativeRegistryError::ConflictingCallTargetAttribute(o.name.clone()),
                    );
                }
            },
            None => {},
        }
        proof {
            assert(format_phase(*c, start, (i + 1) as nat) == format_step(*c, b, i as int));
        }
        i = i + 1;
    }
    Ok(())
}

/// The alternative grammars of `c` registered on top of `a`, as
/// [`alternative_step`] says.
fn alternatives_exec(c: &RegistryConfig, a: &mut ExpandedRegistry) -> (r: Result<(), DeclarativeRegistryError>)
    ensures
        match alternative_phase(*c, old(a)@, c.operation_alternatives@.len()) {
            Ok(t) => r is Ok && final(a)@ == t,
            Err(p) => r matches Err(x) && x@ == p,
        },
{
    let ghost start = a@;
    let n = c.operation_alternatives.len();
    let shapes = c.operation_shapes.len();
    let formats = c.operation_formats.len();
    proof {
        assert(shape_names(*c).take(shapes as int) =~= shape_names(*c));
        assert(format_names(*c).take(formats as int) =~= format_names(*c));
    }
    let mut i: usize = 0;
    while i < n
        invariant
            n == c.operation_alternatives@.len(),
            shapes == c.operation_shapes@.len(),
            formats == c.operation_formats@.len(),
            shape_names(*c).take(shapes as int) == shape_names(*c),
            format_names(*c).take(formats as int) == format_names(*c),
            i <= n,
            start == old(a)@,
            alternative_phase(*c, start, i as nat) == Ok::<SpecExpanded, RegistryProblem>(a@),
        decreases n - i,
    {
        let o = &c.operation_alternatives[i];
        let ghost b = a@;
        if alternative_listed(c, i, &o.name) || shape_listed(c, shapes, &o.name) || format_listed(
            c,
            formats,
            &o.name,
        ) {
            proof {
                lemma_alternative_phase_stays(*c, start, (i + 1) as nat, n as nat);
            }
            return Err(DeclarativeRegistryError::DuplicateOperation(o.name.clone()));
        }
        if !alternatives_valid(&o.alternatives) {
            proof {
                lemma_alternative_phase_stays(*c, start, (i + 1) as nat, n as nat);
            }
            return Err(DeclarativeRegistryError::InvalidOperationAlternatives(o.name.clone()));
        }
        if !put_grammars(&mut a.alternatives, &o.name, &o.alternatives, true) {
            proof {
                lemma_alternative_phase_stays(*c, start, (i + 1) as nat, n as nat);
            }
            return Err(DeclarativeRegistryError::ConflictingAlternatives(o.name.clone()));
        }
        match &o.callee_attribute {
            Some(attribute) => {
                if !valid_attribute_name(attribute.as_str()) || !grammars_call_directly(
                    &o.alternatives,
                ) {
                    proof {
                        lemma_alternative_phase_stays(*c, start, (i + 1) as nat, n as nat);
                    }
                    return Err(
                        DeclarativeRegistryError::InvalidCallTargetAttribute(o.name.clone()),
                    );
                }
                if !put_text(&mut a.call_target_attributes, &o.name, attribute, true) {
                    proof {
                        lemma_alternative_phase_stays(*c, start, (i + 1) as nat, n as nat);
                    }
                    return Err(
                        DeclarativeRegistryError::ConflictingCallTargetAttribute(o.name.clone()),
                    );
                }
            },
            None => {},
        }
        proof {
            assert(alternative_phase(*c, start, (i + 1) as nat) == alternative_step(*c, b, i as int));
        }
        i = i + 1;
    }
    Ok(())
}


/// The presets of `c` expanded and merged, as [`preset_phase`] says.
fn presets_exec(c: &RegistryConfig, presets: &Vec<(String, RegistryConfig)>, fuel: usize) -> (r: Result<
    ExpandedRegistry,
    DeclarativeRegistryError,
>)
    requires
        presets_nest(presets@, c.presets@, fuel as nat),
    ensures
        outcome(r) == preset_phase(*c, presets@, fuel as nat, c.presets@.len()),
    decreases fuel, 0nat,
{
    let mut a = ExpandedRegistry {
        builtins: Vec::new(),
        shapes: Vec::new(),
        formats: Vec::new(),
        alternatives: Vec::new(),
        call_target_attributes: Vec::new(),
    };
    proof {
        assert(a@.builtins =~= nothing_expanded().builtins);
        assert(a@.shapes =~= nothing_expanded().shapes);
        assert(a@.formats =~= nothing_expanded().formats);
        assert(a@.alternatives =~= nothing_expanded().alternatives);
        assert(a@.calls =~= nothing_expanded().calls);
    }
    let n = c.presets.len();
    let mut i: usize = 0;
    while i < n
        invariant
            n == c.presets@.len(),
            i <= n,
            presets_nest(presets@, c.presets@, fuel as nat),
            preset_phase(*c, presets@, fuel as nat, i as nat) == Ok::<SpecExpanded, RegistryProblem>(
                a@,
            ),
        decreases n - i,
    {
        let name = &c.presets[i];
        if lists(&c.presets, i, name) {
            proof {
                lemma_preset_phase_stays(*c, presets@, fuel as nat, (i + 1) as nat, n as nat);
            }
            return Err(DeclarativeRegistryError::DuplicatePreset(name.clone()));
        }
        match find_entry(presets, name) {
            None => {
                proof {
                    lemma_preset_phase_stays(*c, presets@, fuel as nat, (i + 1) as nat, n as nat);
                }
                return Err(DeclarativeRegistryError::UnknownPreset(name.clone()));
            },
            Some(s) => {
                proof {
                    assert(preset_slot(presets@, c.presets@[i as int]@) == s as int);
                }
                match presets[s].1.expand_within(presets, fuel - 1) {
                    Err(e) => {
                        proof {
                            lemma_preset_phase_stays(
                                *c,
                                presets@,
                                fuel as nat,
                                (i + 1) as nat,
                                n as nat,
                            );
                        }
                        return Err(e);
                    },
                    Ok(e) => {
                        match absorb_exec(&mut a, &e) {
                            Err(x) => {
                                proof {
                                    lemma_preset_phase_stays(
                                        *c,
                                        presets@,
                                        fuel as nat,
                                        (i + 1) as nat,
                                        n as nat,
                                    );
                                }
                                return Err(x);
                            },
                            Ok(()) => {},
                        }
                    },
                }
            },
        }
        i = i + 1;
    }
    Ok(a)
}

impl RegistryConfig {
    /// What this configuration registers, with the presets it names looked up
    /// in `presets` (name and configuration of each bundled preset) and merged
    /// in first, as [`spec_expanded`] says. Refused: a preset named twice or not
    /// in the table; a preset shape or call-target attribute that disagrees with
    /// one merged before (a preset's formats and alternative lists replace
    /// earlier ones); a name the configuration registers twice; an explicit
    /// shape, format, list of alternatives or call-target attribute that
    /// disagrees with one merged from a preset; a malformed list of
    /// alternatives; and a call-target attribute that is no attribute name or
    /// whose grammar takes no callee.
    pub fn expanded(&self, presets: &Vec<(String, RegistryConfig)>) -> (r: Result<
        ExpandedRegistry,
        DeclarativeRegistryError,
    >)
        requires
            presets_nest(presets@, self.presets@, presets@.len()),
        ensures
            outcome(r) == spec_expanded(*self, presets@, presets@.len()),
            r matches Ok(e) ==> registrations_distinct(e@),
    {
        proof {
            lemma_expansion_distinct(*self, presets@, presets@.len());
        }
        self.expand_within(presets, presets.len())
    }

    fn expand_within(&self, presets: &Vec<(String, RegistryConfig)>, fuel: usize) -> (r: Result<
        ExpandedRegistry,
        DeclarativeRegistryError,
    >)
        requires
            presets_nest(presets@, self.presets@, fuel as nat),
        ensures
            outcome(r) == spec_expanded(*self, presets@, fuel as nat),
        decreases fuel, 1nat,
    {
        let mut a = match presets_exec(self, presets, fuel) {
            Err(e) => {
                return Err(e);
            },
            Ok(a) => a,
        };
        match builtins_exec(self, &mut a) {
            Err(e) => {
                return Err(e);
            },
            Ok(()) => {},
        }
        match shapes_exec(self, &mut a) {
            Err(e) => {
                return Err(e);
            },
            Ok(()) => {},
        }
        match formats_exec(self, &mut a) {
            Err(e) => {
                return Err(e);
            },
            Ok(()) => {},
        }
        match alternatives_exec(self, &mut a) {
            Err(e) => {
                return Err(e);
            },
            Ok(()) => {},
        }
        Ok(a)
    }
}


proof fn lemma_combine_phase_stays(
    configs: Seq<RegistryConfig>,
    presets: Seq<(String, RegistryConfig)>,
    n: nat,
    n2: nat,
)
    requires
        n <= n2 <= configs.len(),
        combine_phase(configs, presets, n) is Err,
    ensures
        combine_phase(configs, presets, n2) == combine_phase(configs, presets, n),
    decreases n2 - n,
{
    if n2 > n {
        lemma_combine_phase_stays(configs, presets, n, (n2 - 1) as nat);
    }
}

/// Another expansion combined into `a`, as [`combine`] says.
fn combine_exec(a: &mut ExpandedRegistry, e: &ExpandedRegistry) -> (r: Result<(), DeclarativeRegistryError>)
    ensures
        match combine(old(a)@, e@) {
            Ok(t) => r is Ok && final(a)@ == t,
            Err(p) => r matches Err(x) && x@ == p,
        },
{
    let ghost start = a@;
    let mut i: usize = 0;
    while i < e.builtins.len()
        invariant
            i <= e.builtins@.len(),
            start == old(a)@,
            texts(a.builtins@) == add_names(start.builtins, texts(e.builtins@), i as nat),
            a.shapes@ == old(a).shapes@,
            a.formats@ == old(a).formats@,
            a.alternatives@ == old(a).alternatives@,
            a.call_target_attributes@ == old(a).call_target_attributes@,
        decreases e.builtins@.len() - i,
    {
        add_builtin(&mut a.builtins, &e.builtins[i]);
        i = i + 1;
    }
    match merge_shapes(&mut a.shapes, &e.shapes) {
        Err(k) => {
            return Err(DeclarativeRegistryError::ConflictingShape(e.shapes[k].0.clone()));
        },
        Ok(()) => {},
    }
    match merge_texts(&mut a.formats, &e.formats, true) {
        Err(k) => {
            return Err(DeclarativeRegistryError::ConflictingFormat(e.formats[k].0.clone()));
        },
        Ok(()) => {},
    }
    match merge_grammars(&mut a.alternatives, &e.alternatives, true) {
        Err(k) => {
            return Err(
                DeclarativeRegistryError::ConflictingAlternatives(e.alternatives[k].0.clone()),
            );
        },
        Ok(()) => {},
    }
    match merge_texts(&mut a.call_target_attributes, &e.call_target_attributes, true) {
        Err(k) => {
            return Err(
                DeclarativeRegistryError::ConflictingCallTargetAttribute(
                    e.call_target_attributes[k].0.clone(),
                ),
            );
        },
        Ok(()) => {},
    }
    Ok(())
}

impl RegistryConfig {
    /// The registrations this configuration builds: refused with
    /// `UnresolvedImports` while it lists imports (they are resolved by loading
    /// the registry graph), else [`RegistryConfig::expanded`].
    fn build_expanded(&self, presets: &Vec<(String, RegistryConfig)>) -> (r: Result<
        ExpandedRegistry,
        DeclarativeRegistryError,
    >)
        requires
            presets_nest(presets@, self.presets@, presets@.len()),
        ensures
            outcome(r) == spec_build(*self, presets@),
    {
        if self.imports.len() > 0 {
            return Err(DeclarativeRegistryError::UnresolvedImports);
        }
        self.expanded(presets)
    }

    /// The registrations several configurations build together. Identical
    /// registrations across configurations are shared; differing ones are
    /// refused, as [`spec_build_many`] says.
    #[verifier::spinoff_prover]
    #[verifier::rlimit(40)]
    fn combine_many(configs: &Vec<RegistryConfig>, presets: &Vec<(String, RegistryConfig)>) -> (r: Result<
        ExpandedRegistry,
        DeclarativeRegistryError,
    >)
        requires
            forall|i: int|
                0 <= i < configs@.len() ==> presets_nest(
                    presets@,
                    (#[trigger] configs@[i]).presets@,
                    presets@.len(),
                ),
        ensures
            outcome(r) == spec_build_many(configs@, presets@),
            r matches Ok(e) ==> registrations_distinct(e@),
    {
        proof {
            lemma_build_many_distinct(configs@, presets@);
        }
        let n = configs.len();
        let mut k: usize = 0;
        while k < n
            invariant
                n == configs@.len(),
                k <= n,
                forall|j: int| 0 <= j < k ==> configs@[j].imports@.len() == 0,
            decreases n - k,
        {
            if configs[k].imports.len() > 0 {
                return Err(DeclarativeRegistryError::UnresolvedImports);
            }
            k = k + 1;
        }
        let mut a = ExpandedRegistry {
            builtins: Vec::new(),
            shapes: Vec::new(),
            formats: Vec::new(),
            alternatives: Vec::new(),
            call_target_attributes: Vec::new(),
        };
        proof {
            assert(a@.builtins =~= nothing_expanded().builtins);
            assert(a@.shapes =~= nothing_expanded().shapes);
            assert(a@.formats =~= nothing_expanded().formats);
            assert(a@.alternatives =~= nothing_expanded().alternatives);
            assert(a@.calls =~= nothing_expanded().calls);
        }
        let mut i: usize = 0;
        while i < n
            invariant
                n == configs@.len(),
                i <= n,
                forall|j: int|
                    0 <= j < configs@.len() ==> presets_nest(
                        presets@,
                        (#[trigger] configs@[j]).presets@,
                        presets@.len(),
                    ),
                forall|j: int| 0 <= j < n ==> (#[trigger] configs@[j]).imports@.len() == 0,
                combine_phase(configs@, presets@, i as nat) == Ok::<SpecExpanded, RegistryProblem>(
                    a@,
                ),
            decreases n - i,
        {
            let ghost before = a@;
            proof {
                assert(presets_nest(presets@, configs@[i as int].presets@, presets@.len()));
            }
            match configs[i].expanded(presets) {
                Err(e) => {
                    proof {
                        lemma_combine_phase_stays(configs@, presets@, (i + 1) as nat, n as nat);
                    }
                    return Err(e);
                },
                Ok(e) => {
                    match combine_exec(&mut a, &e) {
                        Err(x) => {
                            proof {
                                lemma_combine_phase_stays(
                                    configs@,
                                    presets@,
                                    (i + 1) as nat,
                                    n as nat,
                                );
                            }
                            return Err(x);
                        },
                        Ok(()) => {
                            assert(combine_phase(configs@, presets@, (i + 1) as nat) == combine(
                                before,
                                e@,
                            ));
                        },
                    }
                },
            }
            i = i + 1;
        }
        Ok(a)
    }
}

impl crate::dialect::DialectRegistry {
    /// The registrations of the bundled preset called `name`, as
    /// [`spec_from_name`] says.
    fn preset_registrations(name: &str, presets: &Vec<(String, RegistryConfig)>) -> (r: Result<
        ExpandedRegistry,
        DeclarativeRegistryError,
    >)
        requires
            preset_slot(presets@, name@) >= 0 ==> presets_nest(
                presets@,
                presets@[preset_slot(presets@, name@)].1.presets@,
                (presets@.len() - 1) as nat,
            ),
        ensures
            outcome(r) == spec_from_name(name@, presets@),
    {
        let owned = name.to_owned();
        let config = RegistryConfig {
            imports: Vec::new(),
            presets: vec![owned],
            builtins: Vec::new(),
            operation_shapes: Vec::new(),
            operation_formats: Vec::new(),
            operation_alternatives: Vec::new(),
        };
        let ghost c = config;
        proof {
            assert(c.presets@ =~= seq![owned]);
            let s = preset_slot(presets@, name@);
            assert(preset_slot(presets@, c.presets@[0]@) == s);
            if s >= 0 {
                assert(presets@.len() > 0);
            }
            assert(presets_nest(presets@, c.presets@, presets@.len()));
            assert(texts(c.presets@).take(0) =~= seq![]);
        }
        let r = config.build_expanded(presets);
        proof {
            let s = preset_slot(presets@, name@);
            assert(preset_phase(c, presets@, presets@.len(), 0) == Ok::<
                SpecExpanded,
                RegistryProblem,
            >(nothing_expanded()));
            if s >= 0 {
                assert(presets@.len() > 0);
                match spec_expanded(presets@[s].1, presets@, (presets@.len() - 1) as nat) {
                    Err(e) => {},
                    Ok(e) => {
                        match absorb(nothing_expanded(), e) {
                            Err(_) => {},
                            Ok(t) => {
                                assert(builtin_phase(c, t, 0) == Ok::<SpecExpanded, RegistryProblem>(t));
                                assert(shape_phase(c, t, 0) == Ok::<SpecExpanded, RegistryProblem>(t));
                                assert(format_phase(c, t, 0) == Ok::<SpecExpanded, RegistryProblem>(t));
                            },
                        }
                    },
                }
            }
        }
        r
    }
}


/// Whether the presets that `names` lists nest within `fuel` levels, as
/// [`presets_nest`] says: what [`RegistryConfig::expanded`] asks of its table.
pub fn presets_nest_within(presets: &Vec<(String, RegistryConfig)>, names: &Vec<String>, fuel: usize) -> (r: bool)
    ensures
        r == presets_nest(presets@, names@, fuel as nat),
    decreases fuel,
{
    let mut i: usize = 0;
    while i < names.len()
        invariant
            i <= names@.len(),
            forall|j: int|
                0 <= j < i ==> {
                    let s = #[trigger] preset_slot(presets@, names@[j]@);
                    s >= 0 ==> if fuel == 0 {
                        false
                    } else {
                        presets_nest(presets@, presets@[s].1.presets@, (fuel - 1) as nat)
                    }
                },
        decreases names@.len() - i,
    {
        match find_entry(presets, &names[i]) {
            None => {
                assert(preset_slot(presets@, names@[i as int]@) == -1);
            },
            Some(s) => {
                assert(preset_slot(presets@, names@[i as int]@) == s as int);
                if fuel == 0 {
                    return false;
                }
                if !presets_nest_within(presets, &presets[s].1.presets, fuel - 1) {
                    return false;
                }
            },
        }
        i = i + 1;
    }
    true
}


/// No name occurs twice in any table of an expansion.
pub open spec fn registrations_distinct(e: SpecExpanded) -> bool {
    &&& e.builtins.no_duplicates()
    &&& names_of(e.shapes).no_duplicates()
    &&& names_of(e.formats).no_duplicates()
    &&& names_of(e.alternatives).no_duplicates()
    &&& names_of(e.calls).no_duplicates()
}

proof fn lemma_first_exists(keys: Seq<Seq<char>>, k: Seq<char>, i: int)
    requires
        0 <= i < keys.len(),
        keys[i] == k,
    ensures
        exists|j: int| first_at(keys, k, j),
    decreases i,
{
    if forall|j: int| 0 <= j < i ==> keys[j] != k {
        assert(first_at(keys, k, i));
    } else {
        let j = choose|j: int| 0 <= j < i && keys[j] == k;
        lemma_first_exists(keys, k, j);
    }
}

/// A place found is the first place of the name; none is found only for a
/// name that does not occur.
pub(crate) proof fn lemma_slot_meaning(keys: Seq<Seq<char>>, k: Seq<char>)
    ensures
        slot(keys, k) >= 0 ==> first_at(keys, k, slot(keys, k)),
        slot(keys, k) < 0 ==> !keys.contains(k),
{
    if !(exists|j: int| first_at(keys, k, j)) {
        if keys.contains(k) {
            let i = choose|i: int| 0 <= i < keys.len() && keys[i] == k;
            lemma_first_exists(keys, k, i);
        }
    }
}

pub(crate) proof fn lemma_put_distinct<W>(m: Seq<(Seq<char>, W)>, k: Seq<char>, w: W)
    requires
        names_of(m).no_duplicates(),
    ensures
        names_of(put(m, k, w)).no_duplicates(),
{
    lemma_slot_meaning(names_of(m), k);
    let s = slot(names_of(m), k);
    if s >= 0 {
        assert(names_of(put(m, k, w)) =~= names_of(m));
    } else {
        let n = names_of(put(m, k, w));
        assert(n =~= names_of(m).push(k));
        assert forall|i: int, j: int| 0 <= i < n.len() && 0 <= j < n.len() && i != j implies n[i]
            != n[j] by {
            if j == n.len() - 1 {
                assert(names_of(m)[i] != k);
            } else if i == n.len() - 1 {
                assert(names_of(m)[j] != k);
            }
        }
    }
}

proof fn lemma_merge_distinct<W>(m: Seq<(Seq<char>, W)>, sub: Seq<(Seq<char>, W)>, n: nat)
    requires
        names_of(m).no_duplicates(),
    ensures
        names_of(merge(m, sub, n)).no_duplicates(),
        merge_checked(m, sub, n) matches Ok(t) ==> names_of(t).no_duplicates(),
    decreases n,
{
    if n > 0 && n <= sub.len() {
        lemma_merge_distinct(m, sub, (n - 1) as nat);
        lemma_put_distinct(merge(m, sub, (n - 1) as nat), sub[n - 1].0, sub[n - 1].1);
        match merge_checked(m, sub, (n - 1) as nat) {
            Ok(before) => {
                lemma_put_distinct(before, sub[n - 1].0, sub[n - 1].1);
            },
            Err(_) => {},
        }
    }
}

pub(crate) proof fn lemma_add_names_distinct(s: Seq<Seq<char>>, sub: Seq<Seq<char>>, n: nat)
    requires
        s.no_duplicates(),
    ensures
        add_names(s, sub, n).no_duplicates(),
    decreases n,
{
    if n > 0 && n <= sub.len() {
        lemma_add_names_distinct(s, sub, (n - 1) as nat);
        let before = add_names(s, sub, (n - 1) as nat);
        let k = sub[n - 1];
        if !before.contains(k) {
            let after = before.push(k);
            assert forall|i: int, j: int|
                0 <= i < after.len() && 0 <= j < after.len() && i != j implies after[i] != after[j] by {
                if j == after.len() - 1 {
                    assert(before[i] != k);
                } else if i == after.len() - 1 {
                    assert(before[j] != k);
                }
            }
        }
    }
}

proof fn lemma_absorb_distinct(a: SpecExpanded, e: SpecExpanded)
    requires
        registrations_distinct(a),
    ensures
        absorb(a, e) matches Ok(t) ==> registrations_distinct(t),
        combine(a, e) matches Ok(t) ==> registrations_distinct(t),
{
    lemma_add_names_distinct(a.builtins, e.builtins, e.builtins.len());
    lemma_merge_distinct(a.shapes, e.shapes, e.shapes.len());
    lemma_merge_distinct(a.formats, e.formats, e.formats.len());
    lemma_merge_distinct(a.alternatives, e.alternatives, e.alternatives.len());
    lemma_merge_distinct(a.calls, e.calls, e.calls.len());
}

proof fn lemma_preset_phase_distinct(
    c: RegistryConfig,
    presets: Seq<(String, RegistryConfig)>,
    fuel: nat,
    n: nat,
)
    ensures
        preset_phase(c, presets, fuel, n) matches Ok(t) ==> registrations_distinct(t),
    decreases n,
{
    if n > 0 && n <= c.presets@.len() {
        lemma_preset_phase_distinct(c, presets, fuel, (n - 1) as nat);
        match preset_phase(c, presets, fuel, (n - 1) as nat) {
            Ok(a) => {
                let s = preset_slot(presets, c.presets@[n - 1]@);
                if s >= 0 && fuel > 0 {
                    match spec_expanded(presets[s].1, presets, (fuel - 1) as nat) {
                        Ok(e) => lemma_absorb_distinct(a, e),
                        Err(_) => {},
                    }
                }
            },
            Err(_) => {},
        }
    } else {
        assert(nothing_expanded().builtins.no_duplicates());
        assert(names_of(nothing_expanded().shapes) =~= seq![]);
        assert(names_of(nothing_expanded().formats) =~= seq![]);
        assert(names_of(nothing_expanded().alternatives) =~= seq![]);
        assert(names_of(nothing_expanded().calls) =~= seq![]);
    }
}

proof fn lemma_builtin_phase_distinct(c: RegistryConfig, a: SpecExpanded, n: nat)
    requires
        registrations_distinct(a),
    ensures
        builtin_phase(c, a, n) matches Ok(t) ==> registrations_distinct(t),
    decreases n,
{
    if n > 0 && n <= c.builtins@.len() {
        lemma_builtin_phase_distinct(c, a, (n - 1) as nat);
        match builtin_phase(c, a, (n - 1) as nat) {
            Ok(b) => {
                let k = c.builtins@[n - 1]@;
                assert(add_names(b.builtins, seq![k], 0) == b.builtins);
                assert(add_names(b.builtins, seq![k], 1) == add_name(b.builtins, k));
                lemma_add_names_distinct(b.builtins, seq![k], 1);
            },
            Err(_) => {},
        }
    }
}

pub(crate) proof fn lemma_put_checked_distinct<W>(m: Seq<(Seq<char>, W)>, k: Seq<char>, w: W)
    requires
        names_of(m).no_duplicates(),
    ensures
        put_checked(m, k, w) matches Some(t) ==> names_of(t).no_duplicates(),
{
    lemma_put_distinct(m, k, w);
}

proof fn lemma_shape_phase_distinct(c: RegistryConfig, a: SpecExpanded, n: nat)
    requires
        registrations_distinct(a),
    ensures
        shape_phase(c, a, n) matches Ok(t) ==> registrations_distinct(t),
    decreases n,
{
    if n > 0 && n <= c.operation_shapes@.len() {
        lemma_shape_phase_distinct(c, a, (n - 1) as nat);
        match shape_phase(c, a, (n - 1) as nat) {
            Ok(b) => {
                let o = c.operation_shapes@[n - 1];
                lemma_put_checked_distinct(b.shapes, o.name@, o.shape);
                lemma_put_checked_distinct(b.calls, o.name@, callee_word());
                if o.callee_attribute is Some {
                    lemma_put_checked_distinct(b.calls, o.name@, o.callee_attribute->0@);
                }
            },
            Err(_) => {},
        }
    }
}

proof fn lemma_format_phase_distinct(c: RegistryConfig, a: SpecExpanded, n: nat)
    requires
        registrations_distinct(a),
    ensures
        format_phase(c, a, n) matches Ok(t) ==> registrations_distinct(t),
    decreases n,
{
    if n > 0 && n <= c.operation_formats@.len() {
        lemma_format_phase_distinct(c, a, (n - 1) as nat);
        match format_phase(c, a, (n - 1) as nat) {
            Ok(b) => {
                let o = c.operation_formats@[n - 1];
                lemma_put_checked_distinct(b.formats, o.name@, o.format@);
                if o.callee_attribute is Some {
                    lemma_put_checked_distinct(b.calls, o.name@, o.callee_attribute->0@);
                }
            },
            Err(_) => {},
        }
    }
}

proof fn lemma_alternative_phase_distinct(c: RegistryConfig, a: SpecExpanded, n: nat)
    requires
        registrations_distinct(a),
    ensures
        alternative_phase(c, a, n) matches Ok(t) ==> registrations_distinct(t),
    decreases n,
{
    if n > 0 && n <= c.operation_alternatives@.len() {
        lemma_alternative_phase_distinct(c, a, (n - 1) as nat);
        match alternative_phase(c, a, (n - 1) as nat) {
            Ok(b) => {
                let o = c.operation_alternatives@[n - 1];
                lemma_put_checked_distinct(b.alternatives, o.name@, grammar_views(o.alternatives@));
                if o.callee_attribute is Some {
                    lemma_put_checked_distinct(b.calls, o.name@, o.callee_attribute->0@);
                }
            },
            Err(_) => {},
        }
    }
}

/// An expansion registers each name at most once in each of its tables.
pub proof fn lemma_expansion_distinct(c: RegistryConfig, presets: Seq<(String, RegistryConfig)>, fuel: nat)
    ensures
        spec_expanded(c, presets, fuel) matches Ok(e) ==> registrations_distinct(e),
{
    lemma_preset_phase_distinct(c, presets, fuel, c.presets@.len());
    match preset_phase(c, presets, fuel, c.presets@.len()) {
        Ok(a) => {
            lemma_builtin_phase_distinct(c, a, c.builtins@.len());
            match builtin_phase(c, a, c.builtins@.len()) {
                Ok(b) => {
                    lemma_shape_phase_distinct(c, b, c.operation_shapes@.len());
                    match shape_phase(c, b, c.operation_shapes@.len()) {
                        Ok(d) => {
                            lemma_format_phase_distinct(c, d, c.operation_formats@.len());
                            match format_phase(c, d, c.operation_formats@.len()) {
                                Ok(f) => {
                                    lemma_alternative_phase_distinct(
                                        c,
                                        f,
                                        c.operation_alternatives@.len(),
                                    );
                                },
                                Err(_) => {},
                            }
                        },
                        Err(_) => {},
                    }
                },
                Err(_) => {},
            }
        },
        Err(_) => {},
    }
}

proof fn lemma_combine_phase_distinct(
    configs: Seq<RegistryConfig>,
    presets: Seq<(String, RegistryConfig)>,
    n: nat,
)
    ensures
        combine_phase(configs, presets, n) matches Ok(t) ==> registrations_distinct(t),
    decreases n,
{
    if n > 0 && n <= configs.len() {
        lemma_combine_phase_distinct(configs, presets, (n - 1) as nat);
        match combine_phase(configs, presets, (n - 1) as nat) {
            Ok(a) => match spec_expanded(configs[n - 1], presets, presets.len()) {
                Ok(e) => lemma_absorb_distinct(a, e),
                Err(_) => {},
            },
            Err(_) => {},
        }
    } else {
        assert(names_of(nothing_expanded().shapes) =~= seq![]);
        assert(names_of(nothing_expanded().formats) =~= seq![]);
        assert(names_of(nothing_expanded().alternatives) =~= seq![]);
        assert(names_of(nothing_expanded().calls) =~= seq![]);
    }
}

/// Configurations built together register each name at most once in each table.
pub proof fn lemma_build_many_distinct(configs: Seq<RegistryConfig>, presets: Seq<(String, RegistryConfig)>)
    ensures
        spec_build_many(configs, presets) matches Ok(e) ==> registrations_distinct(e),
{
    lemma_combine_phase_distinct(configs, presets, configs.len());
}


/// A registry built from expanded registrations: the registry holds the
/// built-in operations and named shapes; the registrations keep everything,
/// formats, alternative grammars and call-target attributes included.
pub struct BuiltRegistry {
    pub registry: DialectRegistry,
    pub registrations: ExpandedRegistry,
}

/// Why registering expanded registrations fails: a built-in name the catalog
/// does not know or names twice, or a named shape that is empty, names a core
/// operation, or is named twice.
pub open spec fn registration_problem(e: SpecExpanded) -> Option<RegistryProblem> {
    match declarative_problem(e.builtins, 0, Set::empty()) {
        Some((k, unknown)) => Some(
            (
                if unknown {
                    RegistryErrorKind::UnknownOperation
                } else {
                    RegistryErrorKind::DuplicateOperation
                },
                e.builtins[k],
            ),
        ),
        None => match named_shape_problem(e.shapes, 0) {
            Some((k, p)) => Some(
                match p {
                    ShapeProblem::Empty => (RegistryErrorKind::EmptyOperation, Seq::empty()),
                    ShapeProblem::Core => (RegistryErrorKind::CoreOperation, e.shapes[k].0),
                    ShapeProblem::Duplicate => (RegistryErrorKind::DuplicateOperation, e.shapes[k].0),
                },
            ),
            None => None,
        },
    }
}

/// What a registry built from `e` holds: the catalog operations its built-in
/// names choose, in catalog order, and its named shapes, in order.
pub open spec fn holds(reg: DialectRegistry, e: SpecExpanded) -> bool {
    &&& builtins_for(
        reg.spec_operations(),
        chosen_programs(declarative_choice(e.builtins, 0, Set::empty()), 0),
    )
    &&& reg.spec_types().len() == 0
    &&& reg.spec_attributes().len() == 0
    &&& !reg.spec_module_alias()
    &&& reg.spec_shapes() is Some
    &&& shape_entries(reg.spec_shapes()->0) == e.shapes
}

/// An expansion's outcome followed by registration.
pub open spec fn registered(res: Result<SpecExpanded, RegistryProblem>) -> Result<SpecExpanded, RegistryProblem> {
    match res {
        Err(p) => Err(p),
        Ok(t) => match registration_problem(t) {
            Some(p) => Err(p),
            None => Ok(t),
        },
    }
}

/// Whether `r` is the registry built as `expected` says.
pub open spec fn built_as(r: Result<BuiltRegistry, DeclarativeRegistryError>, expected: Result<SpecExpanded, RegistryProblem>) -> bool {
    match (r, expected) {
        (Ok(b), Ok(t)) => b.registrations@ == t && holds(b.registry, t),
        (Err(x), Err(p)) => x@ == p,
        _ => false,
    }
}

proof fn lemma_declarative_problem_in_range(names: Seq<Seq<char>>, k: int, chosen: Set<int>)
    requires
        0 <= k,
    ensures
        declarative_problem(names, k, chosen) matches Some((j, _)) ==> k <= j < names.len(),
    decreases names.len() - k,
{
    if k < names.len() {
        match crate::dialect::proving_index(names[k]) {
            Some(i) => lemma_declarative_problem_in_range(names, k + 1, chosen.insert(i)),
            None => {},
        }
    }
}

/// Registers expanded registrations: the built-in names with the catalog, then
/// the named shapes, as [`registration_problem`] and [`holds`] say.
pub fn register(e: ExpandedRegistry) -> (r: Result<BuiltRegistry, DeclarativeRegistryError>)
    ensures
        built_as(r, registered(Ok(e@))),
{
    let ghost ev = e@;
    let registry = {
        let mut names: Vec<&str> = Vec::new();
        let mut i: usize = 0;
        while i < e.builtins.len()
            invariant
                i <= e.builtins@.len(),
                crate::dialect::name_views(names@) == texts(e.builtins@).take(i as int),
            decreases e.builtins@.len() - i,
        {
            let n: &str = e.builtins[i].as_str();
            let ghost before = names@;
            names.push(n);
            proof {
                assert(names@ == before.push(n));
                assert(crate::dialect::name_views(names@) =~= crate::dialect::name_views(before).push(n@));
                assert(texts(e.builtins@).take(i + 1) =~= texts(e.builtins@).take(i as int).push(
                    texts(e.builtins@)[i as int],
                ));
            }
            i = i + 1;
        }
        proof {
            assert(texts(e.builtins@).take(i as int) =~= texts(e.builtins@));
        }
        proof {
            lemma_declarative_problem_in_range(ev.builtins, 0, Set::empty());
            assert(crate::dialect::name_views(names@) == ev.builtins);
            assert forall|k: int| 0 <= k < names@.len() implies names@[k]@ == ev.builtins[k] by {
                assert(crate::dialect::name_views(names@)[k] == names@[k]@);
            }
        }
        match DialectRegistry::declarative(names.as_slice()) {
            Err(x) => {
                return Err(x);
            },
            Ok(reg) => reg,
        }
    };
    proof {
        assert(held_shapes(registry.spec_shapes()) + shape_entries(e.shapes@) =~= shape_entries(e.shapes@));
    }
    match registry.extend_operation_shapes(&e.shapes) {
        Err(x) => Err(x),
        Ok(reg) => Ok(BuiltRegistry { registry: reg, registrations: e }),
    }
}

impl RegistryConfig {
    /// The registry this configuration builds: [`RegistryConfig::build_expanded`]'s
    /// registrations, registered.
    pub fn build(&self, presets: &Vec<(String, RegistryConfig)>) -> (r: Result<
        BuiltRegistry,
        DeclarativeRegistryError,
    >)
        requires
            presets_nest(presets@, self.presets@, presets@.len()),
        ensures
            built_as(r, registered(spec_build(*self, presets@))),
    {
        match self.build_expanded(presets) {
            Err(x) => Err(x),
            Ok(e) => register(e),
        }
    }

    /// The registry several configurations build together: their combined
    /// registrations ([`spec_build_many`]), registered.
    pub fn build_many(configs: &Vec<RegistryConfig>, presets: &Vec<(String, RegistryConfig)>) -> (r: Result<
        BuiltRegistry,
        DeclarativeRegistryError,
    >)
        requires
            forall|i: int|
                0 <= i < configs@.len() ==> presets_nest(
                    presets@,
                    (#[trigger] configs@[i]).presets@,
                    presets@.len(),
                ),
        ensures
            built_as(r, registered(spec_build_many(configs@, presets@))),
    {
        match RegistryConfig::combine_many(configs, presets) {
            Err(x) => Err(x),
            Ok(e) => register(e),
        }
    }
}

impl DialectRegistry {
    /// The registry of the bundled preset called `name`, from the table of the
    /// bundled presets (listed under [`DialectRegistry::preset_names`], in that
    /// order): a name the table does not list is an unknown preset.
    pub fn from_name(name: &str, presets: &Vec<(String, RegistryConfig)>) -> (r: Result<
        BuiltRegistry,
        DeclarativeRegistryError,
    >)
        requires
            entry_names(presets@) == preset_name_list(),
            preset_slot(presets@, name@) >= 0 ==> presets_nest(
                presets@,
                presets@[preset_slot(presets@, name@)].1.presets@,
                (presets@.len() - 1) as nat,
            ),
        ensures
            built_as(r, registered(spec_from_name(name@, presets@))),
            !preset_name_list().contains(name@) ==> (r matches Err(x) && x@ == (
                RegistryErrorKind::UnknownPreset,
                name@,
            )),
    {
        proof {
            lemma_slot_meaning(entry_names(presets@), name@);
        }
        match DialectRegistry::preset_registrations(name, presets) {
            Err(x) => Err(x),
            Ok(e) => register(e),
        }
    }
}


pub(crate) proof fn lemma_add_names_fresh(sub: Seq<Seq<char>>, n: nat)
    requires
        sub.no_duplicates(),
        n <= sub.len(),
    ensures
        add_names(seq![], sub, n) == sub.take(n as int),
    decreases n,
{
    if n > 0 {
        lemma_add_names_fresh(sub, (n - 1) as nat);
        let before = sub.take(n - 1);
        if before.contains(sub[n - 1]) {
            let j = choose|j: int| 0 <= j < before.len() && before[j] == sub[n - 1];
            assert(sub[j] == sub[n - 1]);
        }
        assert(before.push(sub[n - 1]) =~= sub.take(n as int));
    } else {
        assert(sub.take(0) =~= seq![]);
    }
}

proof fn lemma_merge_fresh<W>(sub: Seq<(Seq<char>, W)>, n: nat)
    requires
        names_of(sub).no_duplicates(),
        n <= sub.len(),
    ensures
        merge_checked(seq![], sub, n) == Ok::<Seq<(Seq<char>, W)>, Seq<char>>(sub.take(n as int)),
    decreases n,
{
    if n > 0 {
        lemma_merge_fresh(sub, (n - 1) as nat);
        let before = sub.take(n - 1);
        let k = sub[n - 1].0;
        lemma_slot_meaning(names_of(before), k);
        if slot(names_of(before), k) >= 0 {
            let j = slot(names_of(before), k);
            assert(names_of(before)[j] == k);
            assert(names_of(sub)[j] == names_of(sub)[n - 1]);
        }
        assert(before.push((k, sub[n - 1].1)) =~= sub.take(n as int));
    } else {
        assert(sub.take(0) =~= seq![]);
    }
}

/// Building one configuration alone and building it as the only one of several
/// agree.
pub proof fn lemma_build_one_as_many(c: RegistryConfig, presets: Seq<(String, RegistryConfig)>)
    ensures
        spec_build(c, presets) == spec_build_many(seq![c], presets),
        registered(spec_build(c, presets)) == registered(spec_build_many(seq![c], presets)),
{
    let cs = seq![c];
    if c.imports@.len() > 0 {
        assert(cs[0].imports@.len() > 0);
    } else {
        assert(!(exists|i: int| 0 <= i < cs.len() && #[trigger] cs[i].imports@.len() > 0));
        assert(combine_phase(cs, presets, 0) == Ok::<SpecExpanded, RegistryProblem>(nothing_expanded()));
        lemma_expansion_distinct(c, presets, presets.len());
        match spec_expanded(c, presets, presets.len()) {
            Ok(e) => {
                lemma_add_names_fresh(e.builtins, e.builtins.len());
                lemma_merge_fresh(e.shapes, e.shapes.len());
                lemma_merge_fresh(e.formats, e.formats.len());
                lemma_merge_fresh(e.alternatives, e.alternatives.len());
                lemma_merge_fresh(e.calls, e.calls.len());
                assert(e.builtins.take(e.builtins.len() as int) =~= e.builtins);
                assert(e.shapes.take(e.shapes.len() as int) =~= e.shapes);
                assert(e.formats.take(e.formats.len() as int) =~= e.formats);
                assert(e.alternatives.take(e.alternatives.len() as int) =~= e.alternatives);
                assert(e.calls.take(e.calls.len() as int) =~= e.calls);
                assert(combine(nothing_expanded(), e) == Ok::<SpecExpanded, RegistryProblem>(e));
            },
            Err(_) => {},
        }
    }
}

} // verus!
