//! Composing the configurations of a loaded registry graph: each file's
//! expansion in load order, a name defined as different kinds of registration
//! refused, and differing registrations refused with the two files that made
//! them.

use vstd::prelude::*;
use crate::dialect::{DeclarativeRegistryError, OperationShape};
use crate::dialect::config::{OperationGrammarConfig, RegistryConfig};
use crate::dialect::expand::{
    presets_nest, register, registration_problem, holds, BuiltRegistry, add_builtin, lemma_add_names_distinct, lemma_put_checked_distinct,
    registrations_distinct, add_names, entry_names, find_entry, grammar_entries, lemma_first_slot, names_of,
    nothing_expanded, put_checked, put_grammars, put_shape, put_text, shape_entries, slot, spec_expanded,
    text_entries, texts, ExpandedRegistry, RegistryProblem, SpecExpanded, lemma_slot_meaning,
    lemma_add_names_fresh, lemma_expansion_distinct, add_name, GrammarView,
};

verus! {

/// A configuration of a loaded graph, with the file it came from and the
/// import chain that reached it.
#[derive(Clone, Debug)]
pub struct SourcedConfig {
    pub config: RegistryConfig,
    pub origin: String,
    pub chain: Vec<String>,
}

/// The kinds of registration a name can have.
#[derive(Clone, Copy, Debug, PartialEq, Eq, Structural)]
pub enum DefinitionKind {
    Builtin,
    Shape,
    Format,
    Alternatives,
}

/// What two files disagree on.
#[derive(Clone, Copy, Debug, PartialEq, Eq, Structural)]
pub enum ConflictKind {
    Definitions,
    Shapes,
    Formats,
    Alternatives,
    CallTargets,
}

/// Why composing a graph's configurations failed.
#[derive(Clone, Debug, PartialEq, Eq)]
pub enum ComposeError {
    /// The configuration at this index could not be expanded.
    Expansion(usize, DeclarativeRegistryError),
    /// The configurations at the two indices, first and second, disagree on the name.
    Conflict(ConflictKind, String, usize, usize),
    /// The composed registrations could not be registered.
    Registration(DeclarativeRegistryError),
}

/// A compose failure in the terms of the specification.
pub enum ComposeProblem {
    Expansion(nat, RegistryProblem),
    Conflict(ConflictKind, Seq<char>, nat, nat),
    Registration(RegistryProblem),
}

impl View for ComposeError {
    type V = ComposeProblem;

    open spec fn view(&self) -> ComposeProblem {
        match self {
            ComposeError::Expansion(i, e) => ComposeProblem::Expansion(*i as nat, e@),
            ComposeError::Conflict(k, name, a, b) => ComposeProblem::Conflict(
                *k,
                name@,
                *a as nat,
                *b as nat,
            ),
            ComposeError::Registration(e) => ComposeProblem::Registration(e@),
        }
    }
}

/// Where composing stands: what is registered, each name's kind and the first
/// file that defined it, and per table the first file that registered each name.
pub struct ComposeState {
    pub acc: SpecExpanded,
    pub definitions: Seq<(Seq<char>, (DefinitionKind, nat))>,
    pub shape_sources: Seq<(Seq<char>, nat)>,
    pub format_sources: Seq<(Seq<char>, nat)>,
    pub alternative_sources: Seq<(Seq<char>, nat)>,
    pub call_sources: Seq<(Seq<char>, nat)>,
}

pub open spec fn nothing_composed() -> ComposeState {
    ComposeState {
        acc: nothing_expanded(),
        definitions: seq![],
        shape_sources: seq![],
        format_sources: seq![],
        alternative_sources: seq![],
        call_sources: seq![],
    }
}

/// `name` defined as `kind` by file `i`: refused, with the earlier file, where an
/// earlier file defined it as another kind.
pub open spec fn record(
    defs: Seq<(Seq<char>, (DefinitionKind, nat))>,
    name: Seq<char>,
    kind: DefinitionKind,
    i: nat,
) -> Result<Seq<(Seq<char>, (DefinitionKind, nat))>, nat> {
    let s = slot(names_of(defs), name);
    if s >= 0 {
        if defs[s].1.0 != kind {
            Err(defs[s].1.1)
        } else {
            Ok(defs)
        }
    } else {
        Ok(defs.push((name, (kind, i))))
    }
}

/// The first `n` names recorded: the name refused and the earlier file.
pub open spec fn record_all(
    defs: Seq<(Seq<char>, (DefinitionKind, nat))>,
    names: Seq<Seq<char>>,
    kind: DefinitionKind,
    i: nat,
    n: nat,
) -> Result<Seq<(Seq<char>, (DefinitionKind, nat))>, (Seq<char>, nat)>
    decreases n,
{
    if n == 0 || n > names.len() {
        Ok(defs)
    } else {
        match record_all(defs, names, kind, i, (n - 1) as nat) {
            Err(e) => Err(e),
            Ok(d) => match record(d, names[n - 1], kind, i) {
                Err(prev) => Err((names[n - 1], prev)),
                Ok(d2) => Ok(d2),
            },
        }
    }
}

/// The first file that registered each name, with `name` noted for file `i`.
pub open spec fn note(src: Seq<(Seq<char>, nat)>, name: Seq<char>, i: nat) -> Seq<(Seq<char>, nat)> {
    if slot(names_of(src), name) >= 0 {
        src
    } else {
        src.push((name, i))
    }
}

/// The first file that registered `name`, where one did; else `i`.
pub open spec fn first_source(src: Seq<(Seq<char>, nat)>, name: Seq<char>, i: nat) -> nat {
    let s = slot(names_of(src), name);
    if s >= 0 {
        src[s].1
    } else {
        i
    }
}

/// The first `n` entries of `sub`, from file `i`, put into `m` with
/// [`put_checked`] and their files noted: the name refused and the earlier file.
pub open spec fn merge_sourced<W>(
    m: Seq<(Seq<char>, W)>,
    src: Seq<(Seq<char>, nat)>,
    sub: Seq<(Seq<char>, W)>,
    i: nat,
    n: nat,
) -> Result<(Seq<(Seq<char>, W)>, Seq<(Seq<char>, nat)>), (Seq<char>, nat)>
    decreases n,
{
    if n == 0 || n > sub.len() {
        Ok((m, src))
    } else {
        match merge_sourced(m, src, sub, i, (n - 1) as nat) {
            Err(e) => Err(e),
            Ok((m2, src2)) => {
                let k = sub[n - 1].0;
                match put_checked(m2, k, sub[n - 1].1) {
                    None => Err((k, first_source(src2, k, i))),
                    Some(m3) => Ok((m3, note(src2, k, i))),
                }
            },
        }
    }
}

/// The expansion `e` of file `i` composed on top of `st`: its names recorded by
/// kind (built-ins, shapes, formats, alternatives), then its registrations
/// merged (shapes, formats, alternatives, call-target attributes), each
/// refused with the two files where they disagree.
pub open spec fn compose_step(st: ComposeState, e: SpecExpanded, i: nat) -> Result<ComposeState, ComposeProblem> {
    let conflict = |k: ConflictKind, p: (Seq<char>, nat)| ComposeProblem::Conflict(k, p.0, p.1, i);
    match record_all(st.definitions, e.builtins, DefinitionKind::Builtin, i, e.builtins.len()) {
        Err(p) => Err(conflict(ConflictKind::Definitions, p)),
        Ok(d1) => match record_all(d1, names_of(e.shapes), DefinitionKind::Shape, i, e.shapes.len()) {
            Err(p) => Err(conflict(ConflictKind::Definitions, p)),
            Ok(d2) => match record_all(d2, names_of(e.formats), DefinitionKind::Format, i, e.formats.len()) {
                Err(p) => Err(conflict(ConflictKind::Definitions, p)),
                Ok(d3) => match record_all(
                    d3,
                    names_of(e.alternatives),
                    DefinitionKind::Alternatives,
                    i,
                    e.alternatives.len(),
                ) {
                    Err(p) => Err(conflict(ConflictKind::Definitions, p)),
                    Ok(d4) => {
                        let builtins = add_names(st.acc.builtins, e.builtins, e.builtins.len());
                        match merge_sourced(st.acc.shapes, st.shape_sources, e.shapes, i, e.shapes.len()) {
                            Err(p) => Err(conflict(ConflictKind::Shapes, p)),
                            Ok((shapes, ss)) => match merge_sourced(
                                st.acc.formats,
                                st.format_sources,
                                e.formats,
                                i,
                                e.formats.len(),
                            ) {
                                Err(p) => Err(conflict(ConflictKind::Formats, p)),
                                Ok((formats, fs)) => match merge_sourced(
                                    st.acc.alternatives,
                                    st.alternative_sources,
                                    e.alternatives,
                                    i,
                                    e.alternatives.len(),
                                ) {
                                    Err(p) => Err(conflict(ConflictKind::Alternatives, p)),
                                    Ok((alternatives, als)) => match merge_sourced(
                                        st.acc.calls,
                                        st.call_sources,
                                        e.calls,
                                        i,
                                        e.calls.len(),
                                    ) {
                                        Err(p) => Err(conflict(ConflictKind::CallTargets, p)),
                                        Ok((calls, cs)) => Ok(
                                            ComposeState {
                                                acc: SpecExpanded {
                                                    builtins,
                                                    shapes,
                                                    formats,
                                                    alternatives,
                                                    calls,
                                                },
                                                definitions: d4,
                                                shape_sources: ss,
                                                format_sources: fs,
                                                alternative_sources: als,
                                                call_sources: cs,
                                            },
                                        ),
                                    },
                                },
                            },
                        }
                    },
                },
            },
        },
    }
}

/// The first `n` files composed, in load order.
pub open spec fn compose_phase(
    sources: Seq<SourcedConfig>,
    presets: Seq<(String, RegistryConfig)>,
    n: nat,
) -> Result<ComposeState, ComposeProblem>
    decreases n,
{
    if n == 0 || n > sources.len() {
        Ok(nothing_composed())
    } else {
        match compose_phase(sources, presets, (n - 1) as nat) {
            Err(e) => Err(e),
            Ok(st) => match spec_expanded(sources[n - 1].config, presets, presets.len()) {
                Err(p) => Err(ComposeProblem::Expansion((n - 1) as nat, p)),
                Ok(e) => compose_step(st, e, (n - 1) as nat),
            },
        }
    }
}

/// What a graph's configurations register together.
pub open spec fn spec_composed(sources: Seq<SourcedConfig>, presets: Seq<(String, RegistryConfig)>) -> Result<
    SpecExpanded,
    ComposeProblem,
> {
    match compose_phase(sources, presets, sources.len()) {
        Err(e) => Err(e),
        Ok(st) => Ok(st.acc),
    }
}


pub open spec fn definition_entries(v: Seq<(String, (DefinitionKind, usize))>) -> Seq<
    (Seq<char>, (DefinitionKind, nat)),
> {
    v.map_values(|p: (String, (DefinitionKind, usize))| (p.0@, (p.1.0, p.1.1 as nat)))
}

pub open spec fn source_entries(v: Seq<(String, usize)>) -> Seq<(Seq<char>, nat)> {
    v.map_values(|p: (String, usize)| (p.0@, p.1 as nat))
}

proof fn lemma_record_all_stays(
    defs: Seq<(Seq<char>, (DefinitionKind, nat))>,
    names: Seq<Seq<char>>,
    kind: DefinitionKind,
    i: nat,
    n: nat,
    n2: nat,
)
    requires
        n <= n2 <= names.len(),
        record_all(defs, names, kind, i, n) is Err,
    ensures
        record_all(defs, names, kind, i, n2) == record_all(defs, names, kind, i, n),
    decreases n2 - n,
{
    if n2 > n {
        lemma_record_all_stays(defs, names, kind, i, n, (n2 - 1) as nat);
    }
}

proof fn lemma_merge_sourced_stays<W>(
    m: Seq<(Seq<char>, W)>,
    src: Seq<(Seq<char>, nat)>,
    sub: Seq<(Seq<char>, W)>,
    i: nat,
    n: nat,
    n2: nat,
)
    requires
        n <= n2 <= sub.len(),
        merge_sourced(m, src, sub, i, n) is Err,
    ensures
        merge_sourced(m, src, sub, i, n2) == merge_sourced(m, src, sub, i, n),
    decreases n2 - n,
{
    if n2 > n {
        lemma_merge_sourced_stays(m, src, sub, i, n, (n2 - 1) as nat);
    }
}

/// `name` recorded as `kind` for file `i`, as [`record`] says.
fn record_exec(
    defs: &mut Vec<(String, (DefinitionKind, usize))>,
    name: &String,
    kind: DefinitionKind,
    i: usize,
) -> (r: Result<(), usize>)
    ensures
        match record(definition_entries(old(defs)@), name@, kind, i as nat) {
            Ok(d) => r is Ok && definition_entries(final(defs)@) == d,
            Err(p) => r matches Err(x) && x == p,
        },
{
    proof {
        assert(names_of(definition_entries(defs@)) =~= entry_names(defs@));
    }
    match find_entry(defs, name) {
        Some(s) => {
            if defs[s].1.0 != kind {
                return Err(defs[s].1.1);
            }
        },
        None => {
            defs.push((name.clone(), (kind, i)));
            proof {
                assert(definition_entries(defs@) =~= definition_entries(old(defs)@).push(
                    (name@, (kind, i as nat)),
                ));
            }
        },
    }
    Ok(())
}

/// The built-in names of a file recorded, as [`record_all`] says.
fn record_builtins(defs: &mut Vec<(String, (DefinitionKind, usize))>, v: &Vec<String>, i: usize) -> (r: Result<
    (),
    (usize, usize),
>)
    ensures
        match record_all(
            definition_entries(old(defs)@),
            texts(v@),
            DefinitionKind::Builtin,
            i as nat,
            v@.len(),
        ) {
            Ok(d) => r is Ok && definition_entries(final(defs)@) == d,
            Err((name, p)) => r matches Err((j, x)) && j < v@.len() && v@[j as int]@ == name && x == p,
        },
{
    let ghost start = definition_entries(defs@);
    let mut j: usize = 0;
    while j < v.len()
        invariant
            j <= v@.len(),
            start == definition_entries(old(defs)@),
            record_all(start, texts(v@), DefinitionKind::Builtin, i as nat, j as nat) == Ok::<
                _,
                (Seq<char>, nat),
            >(definition_entries(defs@)),
        decreases v@.len() - j,
    {
        match record_exec(defs, &v[j], DefinitionKind::Builtin, i) {
            Err(x) => {
                proof {
                    lemma_record_all_stays(
                        start,
                        texts(v@),
                        DefinitionKind::Builtin,
                        i as nat,
                        (j + 1) as nat,
                        v@.len(),
                    );
                }
                return Err((j, x));
            },
            Ok(()) => {},
        }
        j = j + 1;
    }
    Ok(())
}

/// The names of a table of a file recorded as `kind`, as [`record_all`] says.
fn record_keys<V>(
    defs: &mut Vec<(String, (DefinitionKind, usize))>,
    table: &Vec<(String, V)>,
    kind: DefinitionKind,
    i: usize,
) -> (r: Result<(), (usize, usize)>)
    ensures
        match record_all(definition_entries(old(defs)@), entry_names(table@), kind, i as nat, table@.len()) {
            Ok(d) => r is Ok && definition_entries(final(defs)@) == d,
            Err((name, p)) => r matches Err((j, x)) && j < table@.len() && table@[j as int].0@ == name
                && x == p,
        },
{
    let ghost start = definition_entries(defs@);
    let mut j: usize = 0;
    while j < table.len()
        invariant
            j <= table@.len(),
            start == definition_entries(old(defs)@),
            record_all(start, entry_names(table@), kind, i as nat, j as nat) == Ok::<
                _,
                (Seq<char>, nat),
            >(definition_entries(defs@)),
        decreases table@.len() - j,
    {
        match record_exec(defs, &table[j].0, kind, i) {
            Err(x) => {
                proof {
                    lemma_record_all_stays(
                        start,
                        entry_names(table@),
                        kind,
                        i as nat,
                        (j + 1) as nat,
                        table@.len(),
                    );
                }
                return Err((j, x));
            },
            Ok(()) => {},
        }
        j = j + 1;
    }
    Ok(())
}

/// `name` noted for file `i`, as [`note`] says.
fn note_exec(src: &mut Vec<(String, usize)>, name: &String, i: usize)
    ensures
        source_entries(final(src)@) == note(source_entries(old(src)@), name@, i as nat),
{
    proof {
        assert(names_of(source_entries(src@)) =~= entry_names(src@));
    }
    match find_entry(src, name) {
        Some(_) => {},
        None => {
            src.push((name.clone(), i));
            proof {
                assert(source_entries(src@) =~= source_entries(old(src)@).push((name@, i as nat)));
            }
        },
    }
}

/// The first file that registered `name`, as [`first_source`] says.
fn first_source_exec(src: &Vec<(String, usize)>, name: &String, i: usize) -> (r: usize)
    ensures
        r == first_source(source_entries(src@), name@, i as nat),
{
    proof {
        assert(names_of(source_entries(src@)) =~= entry_names(src@));
    }
    match find_entry(src, name) {
        Some(s) => src[s].1,
        None => i,
    }
}


/// The shapes of file `i` merged in with their files noted, as
/// [`merge_sourced`] says.
fn merge_shapes_sourced(
    m: &mut Vec<(String, OperationShape)>,
    src: &mut Vec<(String, usize)>,
    sub: &Vec<(String, OperationShape)>,
    i: usize,
) -> (r: Result<(), (usize, usize)>)
    ensures
        match merge_sourced(shape_entries(old(m)@), source_entries(old(src)@), shape_entries(sub@), i as nat, sub@.len()) {
            Ok((m2, s2)) => r is Ok && shape_entries(final(m)@) == m2 && source_entries(final(src)@) == s2,
            Err((k, p)) => r matches Err((j, x)) && j < sub@.len() && sub@[j as int].0@ == k && x == p,
        },
{
    let ghost start = shape_entries(m@);
    let ghost sources = source_entries(src@);
    let ghost sv = shape_entries(sub@);
    let mut j: usize = 0;
    while j < sub.len()
        invariant
            j <= sub@.len(),
            start == shape_entries(old(m)@),
            sources == source_entries(old(src)@),
            sv == shape_entries(sub@),
            merge_sourced(start, sources, sv, i as nat, j as nat) == Ok::<_, (Seq<char>, nat)>(
                (shape_entries(m@), source_entries(src@)),
            ),
        decreases sub@.len() - j,
    {
        let ghost before = shape_entries(m@);
        let ok = put_shape(m, &sub[j].0, sub[j].1);
        if !ok {
            let first = first_source_exec(src, &sub[j].0, i);
            proof {
                assert(sv[j as int].0 == sub@[j as int].0@);
                lemma_merge_sourced_stays(start, sources, sv, i as nat, (j + 1) as nat, sub@.len());
            }
            return Err((j, first));
        }
        note_exec(src, &sub[j].0, i);
        j = j + 1;
    }
    Ok(())
}

/// The texts of file `i` merged in with their files noted, as
/// [`merge_sourced`] says.
fn merge_texts_sourced(
    m: &mut Vec<(String, String)>,
    src: &mut Vec<(String, usize)>,
    sub: &Vec<(String, String)>,
    i: usize,
) -> (r: Result<(), (usize, usize)>)
    ensures
        match merge_sourced(text_entries(old(m)@), source_entries(old(src)@), text_entries(sub@), i as nat, sub@.len()) {
            Ok((m2, s2)) => r is Ok && text_entries(final(m)@) == m2 && source_entries(final(src)@) == s2,
            Err((k, p)) => r matches Err((j, x)) && j < sub@.len() && sub@[j as int].0@ == k && x == p,
        },
{
    let ghost start = text_entries(m@);
    let ghost sources = source_entries(src@);
    let ghost sv = text_entries(sub@);
    let mut j: usize = 0;
    while j < sub.len()
        invariant
            j <= sub@.len(),
            start == text_entries(old(m)@),
            sources == source_entries(old(src)@),
            sv == text_entries(sub@),
            merge_sourced(start, sources, sv, i as nat, j as nat) == Ok::<_, (Seq<char>, nat)>(
                (text_entries(m@), source_entries(src@)),
            ),
        decreases sub@.len() - j,
    {
        let ghost before = text_entries(m@);
        let ok = put_text(m, &sub[j].0, &sub[j].1, true);
        if !ok {
            let first = first_source_exec(src, &sub[j].0, i);
            proof {
                assert(sv[j as int].0 == sub@[j as int].0@);
                lemma_merge_sourced_stays(start, sources, sv, i as nat, (j + 1) as nat, sub@.len());
            }
            return Err((j, first));
        }
        note_exec(src, &sub[j].0, i);
        j = j + 1;
    }
    Ok(())
}

/// The alternative grammars of file `i` merged in with their files noted, as
/// [`merge_sourced`] says.
fn merge_grammars_sourced(
    m: &mut Vec<(String, Vec<OperationGrammarConfig>)>,
    src: &mut Vec<(String, usize)>,
    sub: &Vec<(String, Vec<OperationGrammarConfig>)>,
    i: usize,
) -> (r: Result<(), (usize, usize)>)
    ensures
        match merge_sourced(grammar_entries(old(m)@), source_entries(old(src)@), grammar_entries(sub@), i as nat, sub@.len()) {
            Ok((m2, s2)) => r is Ok && grammar_entries(final(m)@) == m2 && source_entries(final(src)@) == s2,
            Err((k, p)) => r matches Err((j, x)) && j < sub@.len() && sub@[j as int].0@ == k && x == p,
        },
{
    let ghost start = grammar_entries(m@);
    let ghost sources = source_entries(src@);
    let ghost sv = grammar_entries(sub@);
    let mut j: usize = 0;
    while j < sub.len()
        invariant
            j <= sub@.len(),
            start == grammar_entries(old(m)@),
            sources == source_entries(old(src)@),
            sv == grammar_entries(sub@),
            merge_sourced(start, sources, sv, i as nat, j as nat) == Ok::<_, (Seq<char>, nat)>(
                (grammar_entries(m@), source_entries(src@)),
            ),
        decreases sub@.len() - j,
    {
        let ghost before = grammar_entries(m@);
        let ok = put_grammars(m, &sub[j].0, &sub[j].1, true);
        if !ok {
            let first = first_source_exec(src, &sub[j].0, i);
            proof {
                assert(sv[j as int].0 == sub@[j as int].0@);
                lemma_merge_sourced_stays(start, sources, sv, i as nat, (j + 1) as nat, sub@.len());
            }
            return Err((j, first));
        }
        note_exec(src, &sub[j].0, i);
        j = j + 1;
    }
    Ok(())
}


/// Where composing stands, as held while it runs.
struct Composer {
    acc: ExpandedRegistry,
    definitions: Vec<(String, (DefinitionKind, usize))>,
    shape_sources: Vec<(String, usize)>,
    format_sources: Vec<(String, usize)>,
    alternative_sources: Vec<(String, usize)>,
    call_sources: Vec<(String, usize)>,
}

impl View for Composer {
    type V = ComposeState;

    closed spec fn view(&self) -> ComposeState {
        ComposeState {
            acc: self.acc@,
            definitions: definition_entries(self.definitions@),
            shape_sources: source_entries(self.shape_sources@),
            format_sources: source_entries(self.format_sources@),
            alternative_sources: source_entries(self.alternative_sources@),
            call_sources: source_entries(self.call_sources@),
        }
    }
}

/// The expansion of file `i` composed on top of `st`, as [`compose_step`] says.
#[verifier::rlimit(30)]
fn compose_step_exec(st: &mut Composer, e: &ExpandedRegistry, i: usize) -> (r: Result<(), ComposeError>)
    ensures
        match compose_step(old(st)@, e@, i as nat) {
            Ok(t) => r is Ok && final(st)@ == t,
            Err(p) => r matches Err(x) && x@ == p,
        },
{
    proof {
        assert(names_of(e@.shapes) =~= entry_names(e.shapes@));
        assert(names_of(e@.formats) =~= entry_names(e.formats@));
        assert(names_of(e@.alternatives) =~= entry_names(e.alternatives@));
    }
    match record_builtins(&mut st.definitions, &e.builtins, i) {
        Err((j, x)) => {
            return Err(
                ComposeError::Conflict(ConflictKind::Definitions, e.builtins[j].clone(), x, i),
            );
        },
        Ok(()) => {},
    }
    match record_keys(&mut st.definitions, &e.shapes, DefinitionKind::Shape, i) {
        Err((j, x)) => {
            return Err(
                ComposeError::Conflict(ConflictKind::Definitions, e.shapes[j].0.clone(), x, i),
            );
        },
        Ok(()) => {},
    }
    match record_keys(&mut st.definitions, &e.formats, DefinitionKind::Format, i) {
        Err((j, x)) => {
            return Err(
                ComposeError::Conflict(ConflictKind::Definitions, e.formats[j].0.clone(), x, i),
            );
        },
        Ok(()) => {},
    }
    match record_keys(&mut st.definitions, &e.alternatives, DefinitionKind::Alternatives, i) {
        Err((j, x)) => {
            return Err(
                ComposeError::Conflict(
                    ConflictKind::Definitions,
                    e.alternatives[j].0.clone(),
                    x,
                    i,
                ),
            );
        },
        Ok(()) => {},
    }
    let ghost builtins_before = st.acc@.builtins;
    let ghost defs = st.definitions@;
    let ghost shapes = st.acc.shapes@;
    let ghost formats = st.acc.formats@;
    let ghost alternatives = st.acc.alternatives@;
    let ghost calls = st.acc.call_target_attributes@;
    let ghost ss = st.shape_sources@;
    let ghost fs = st.format_sources@;
    let ghost als = st.alternative_sources@;
    let ghost cs = st.call_sources@;
    let mut k: usize = 0;
    while k < e.builtins.len()
        invariant
            k <= e.builtins@.len(),
            texts(st.acc.builtins@) == add_names(builtins_before, texts(e.builtins@), k as nat),
            st.definitions@ == defs,
            st.acc.shapes@ == shapes,
            st.acc.formats@ == formats,
            st.acc.alternatives@ == alternatives,
            st.acc.call_target_attributes@ == calls,
            st.shape_sources@ == ss,
            st.format_sources@ == fs,
            st.alternative_sources@ == als,
            st.call_sources@ == cs,
        decreases e.builtins@.len() - k,
    {
        add_builtin(&mut st.acc.builtins, &e.builtins[k]);
        k = k + 1;
    }
    match merge_shapes_sourced(&mut st.acc.shapes, &mut st.shape_sources, &e.shapes, i) {
        Err((j, x)) => {
            return Err(ComposeError::Conflict(ConflictKind::Shapes, e.shapes[j].0.clone(), x, i));
        },
        Ok(()) => {},
    }
    match merge_texts_sourced(&mut st.acc.formats, &mut st.format_sources, &e.formats, i) {
        Err((j, x)) => {
            return Err(
                ComposeError::Conflict(ConflictKind::Formats, e.formats[j].0.clone(), x, i),
            );
        },
        Ok(()) => {},
    }
    match merge_grammars_sourced(
        &mut st.acc.alternatives,
        &mut st.alternative_sources,
        &e.alternatives,
        i,
    ) {
        Err((j, x)) => {
            return Err(
                ComposeError::Conflict(
                    ConflictKind::Alternatives,
                    e.alternatives[j].0.clone(),
                    x,
                    i,
                ),
            );
        },
        Ok(()) => {},
    }
    match merge_texts_sourced(
        &mut st.acc.call_target_attributes,
        &mut st.call_sources,
        &e.call_target_attributes,
        i,
    ) {
        Err((j, x)) => {
            return Err(
                ComposeError::Conflict(
                    ConflictKind::CallTargets,
                    e.call_target_attributes[j].0.clone(),
                    x,
                    i,
                ),
            );
        },
        Ok(()) => {},
    }
    Ok(())
}

proof fn lemma_compose_phase_stays(
    sources: Seq<SourcedConfig>,
    presets: Seq<(String, RegistryConfig)>,
    n: nat,
    n2: nat,
)
    requires
        n <= n2 <= sources.len(),
        compose_phase(sources, presets, n) is Err,
    ensures
        compose_phase(sources, presets, n2) == compose_phase(sources, presets, n),
    decreases n2 - n,
{
    if n2 > n {
        lemma_compose_phase_stays(sources, presets, n, (n2 - 1) as nat);
    }
}

/// The registrations of a loaded graph's configurations (in load order, each
/// file's imports before the file), with the presets each names looked up in
/// `presets`, as [`spec_composed`] says: a file that cannot be expanded is
/// refused with its index; a name registered as different kinds, or with
/// differing registrations, by two files is refused with both files.
fn compose_registrations(sources: &Vec<SourcedConfig>, presets: &Vec<(String, RegistryConfig)>) -> (r: Result<
    ExpandedRegistry,
    ComposeError,
>)
    requires
        forall|j: int|
            0 <= j < sources@.len() ==> presets_nest(
                presets@,
                (#[trigger] sources@[j]).config.presets@,
                presets@.len(),
            ),
    ensures
        match spec_composed(sources@, presets@) {
            Ok(t) => r matches Ok(x) && x@ == t,
            Err(p) => r matches Err(x) && x@ == p,
        },
        r matches Ok(e) ==> registrations_distinct(e@),
{
    proof {
        lemma_composed_distinct(sources@, presets@);
    }
    let mut st = Composer {
        acc: ExpandedRegistry {
            builtins: Vec::new(),
            shapes: Vec::new(),
            formats: Vec::new(),
            alternatives: Vec::new(),
            call_target_attributes: Vec::new(),
        },
        definitions: Vec::new(),
        shape_sources: Vec::new(),
        format_sources: Vec::new(),
        alternative_sources: Vec::new(),
        call_sources: Vec::new(),
    };
    proof {
        assert(st@.acc.builtins =~= seq![]);
        assert(st@.acc.shapes =~= seq![]);
        assert(st@.acc.formats =~= seq![]);
        assert(st@.acc.alternatives =~= seq![]);
        assert(st@.acc.calls =~= seq![]);
        assert(st@.definitions =~= seq![]);
        assert(st@.shape_sources =~= seq![]);
        assert(st@.format_sources =~= seq![]);
        assert(st@.alternative_sources =~= seq![]);
        assert(st@.call_sources =~= seq![]);
        assert(st@ == nothing_composed());
    }
    let n = sources.len();
    let mut i: usize = 0;
    while i < n
        invariant
            n == sources@.len(),
            i <= n,
            forall|j: int|
                0 <= j < sources@.len() ==> presets_nest(
                    presets@,
                    (#[trigger] sources@[j]).config.presets@,
                    presets@.len(),
                ),
            compose_phase(sources@, presets@, i as nat) == Ok::<ComposeState, ComposeProblem>(st@),
        decreases n - i,
    {
        let ghost before = st@;
        proof {
            assert(presets_nest(presets@, sources@[i as int].config.presets@, presets@.len()));
        }
        match sources[i].config.expanded(presets) {
            Err(e) => {
                proof {
                    lemma_compose_phase_stays(sources@, presets@, (i + 1) as nat, n as nat);
                }
                return Err(ComposeError::Expansion(i, e));
            },
            Ok(e) => {
                match compose_step_exec(&mut st, &e, i) {
                    Err(x) => {
                        proof {
                            lemma_compose_phase_stays(sources@, presets@, (i + 1) as nat, n as nat);
                        }
                        return Err(x);
                    },
                    Ok(()) => {
                        assert(compose_phase(sources@, presets@, (i + 1) as nat) == compose_step(
                            before,
                            e@,
                            i as nat,
                        ));
                    },
                }
            },
        }
        i = i + 1;
    }
    Ok(st.acc)
}


proof fn lemma_merge_sourced_distinct<W>(
    m: Seq<(Seq<char>, W)>,
    src: Seq<(Seq<char>, nat)>,
    sub: Seq<(Seq<char>, W)>,
    i: nat,
    n: nat,
)
    requires
        names_of(m).no_duplicates(),
    ensures
        merge_sourced(m, src, sub, i, n) matches Ok((t, _)) ==> names_of(t).no_duplicates(),
    decreases n,
{
    if n > 0 && n <= sub.len() {
        lemma_merge_sourced_distinct(m, src, sub, i, (n - 1) as nat);
        match merge_sourced(m, src, sub, i, (n - 1) as nat) {
            Ok((m2, _)) => lemma_put_checked_distinct(m2, sub[n - 1].0, sub[n - 1].1),
            Err(_) => {},
        }
    }
}

proof fn lemma_compose_phase_distinct(
    sources: Seq<SourcedConfig>,
    presets: Seq<(String, RegistryConfig)>,
    n: nat,
)
    ensures
        compose_phase(sources, presets, n) matches Ok(st) ==> registrations_distinct(st.acc),
    decreases n,
{
    if n > 0 && n <= sources.len() {
        lemma_compose_phase_distinct(sources, presets, (n - 1) as nat);
        match compose_phase(sources, presets, (n - 1) as nat) {
            Ok(st) => match spec_expanded(sources[n - 1].config, presets, presets.len()) {
                Ok(e) => {
                    let i = (n - 1) as nat;
                    lemma_add_names_distinct(st.acc.builtins, e.builtins, e.builtins.len());
                    lemma_merge_sourced_distinct(st.acc.shapes, st.shape_sources, e.shapes, i, e.shapes.len());
                    lemma_merge_sourced_distinct(st.acc.formats, st.format_sources, e.formats, i, e.formats.len());
                    lemma_merge_sourced_distinct(
                        st.acc.alternatives,
                        st.alternative_sources,
                        e.alternatives,
                        i,
                        e.alternatives.len(),
                    );
                    lemma_merge_sourced_distinct(st.acc.calls, st.call_sources, e.calls, i, e.calls.len());
                },
                Err(_) => {},
            },
            Err(_) => {},
        }
    } else {
        assert(names_of(nothing_expanded().shapes) =~= seq![]);
        assert(names_of(nothing_expanded().formats) =~= seq![]);
        assert(names_of(nothing_expanded().alternatives) =~= seq![]);
        assert(names_of(nothing_expanded().calls) =~= seq![]);
    }
}

/// A composed graph registers each name at most once in each table.
pub proof fn lemma_composed_distinct(sources: Seq<SourcedConfig>, presets: Seq<(String, RegistryConfig)>)
    ensures
        spec_composed(sources, presets) matches Ok(e) ==> registrations_distinct(e),
{
    lemma_compose_phase_distinct(sources, presets, sources.len());
}


/// Whether no name of an expansion is defined as two kinds of registration
/// (built-in operation, shape, format, alternatives).
pub open spec fn kinds_apart(e: SpecExpanded) -> bool {
    let b = e.builtins;
    let s = names_of(e.shapes);
    let f = names_of(e.formats);
    let a = names_of(e.alternatives);
    &&& forall|x: Seq<char>| #[trigger] b.contains(x) ==> !s.contains(x) && !f.contains(x) && !a.contains(x)
    &&& forall|x: Seq<char>| #[trigger] s.contains(x) ==> !f.contains(x) && !a.contains(x)
    &&& forall|x: Seq<char>| #[trigger] f.contains(x) ==> !a.contains(x)
}

/// Merging distinct entries into an empty table keeps them all, in order.
proof fn lemma_merge_sourced_fresh<W>(src: Seq<(Seq<char>, nat)>, sub: Seq<(Seq<char>, W)>, i: nat, n: nat)
    requires
        names_of(sub).no_duplicates(),
        n <= sub.len(),
    ensures
        merge_sourced(seq![], src, sub, i, n) matches Ok((m, _)) && m == sub.take(n as int),
    decreases n,
{
    if n > 0 {
        lemma_merge_sourced_fresh(src, sub, i, (n - 1) as nat);
        let before = sub.take(n - 1);
        let k = sub[n - 1].0;
        lemma_slot_meaning(names_of(before), k);
        if slot(names_of(before), k) >= 0 {
            let j = slot(names_of(before), k);
            assert(names_of(before)[j] == k);
            assert(names_of(sub)[j] == names_of(sub)[n - 1]);
        }
        assert(before.push((k, sub[n - 1].1)) =~= sub.take(n as int));
    } else {
        assert(sub.take(0) =~= seq![]);
    }
}

/// Recording names of one kind, none of which an entry of another kind holds,
/// succeeds: the earlier entries stay, and each new one is of that kind and
/// one of the names.
proof fn lemma_record_all_apart(
    defs: Seq<(Seq<char>, (DefinitionKind, nat))>,
    names: Seq<Seq<char>>,
    kind: DefinitionKind,
    i: nat,
    n: nat,
)
    requires
        n <= names.len(),
        forall|j: int| 0 <= j < defs.len() && (#[trigger] defs[j]).1.0 != kind ==> !names.contains(defs[j].0),
    ensures
        record_all(defs, names, kind, i, n) matches Ok(d) && defs.len() <= d.len() && (forall|j: int|
            0 <= j < defs.len() ==> #[trigger] d[j] == defs[j]) && (forall|j: int|
            defs.len() <= j < d.len() ==> (#[trigger] d[j]).1.0 == kind && names.contains(d[j].0)),
    decreases n,
{
    if n > 0 {
        lemma_record_all_apart(defs, names, kind, i, (n - 1) as nat);
        let d = record_all(defs, names, kind, i, (n - 1) as nat)->Ok_0;
        let name = names[n - 1];
        lemma_slot_meaning(names_of(d), name);
        let s = slot(names_of(d), name);
        if s >= 0 {
            assert(names_of(d)[s] == name);
            if d[s].1.0 != kind {
                if s < defs.len() {
                    assert(d[s] == defs[s]);
                    assert(names.contains(defs[s].0));
                } else {
                    assert(d[s].1.0 == kind);
                }
            }
        } else {
            let d2 = d.push((name, (kind, i)));
            assert forall|j: int| 0 <= j < defs.len() implies #[trigger] d2[j] == defs[j] by {
                assert(d2[j] == d[j]);
            }
            assert forall|j: int| defs.len() <= j < d2.len() implies (#[trigger] d2[j]).1.0 == kind
                && names.contains(d2[j].0) by {
                if j < d.len() {
                    assert(d2[j] == d[j]);
                } else {
                    assert(names[n - 1] == name);
                }
            }
        }
    }
}

/// Every recorded entry's name is registered under its kind by `e`.
pub open spec fn recorded_from(defs: Seq<(Seq<char>, (DefinitionKind, nat))>, e: SpecExpanded) -> bool {
    forall|j: int|
        0 <= j < defs.len() ==> match (#[trigger] defs[j]).1.0 {
            DefinitionKind::Builtin => e.builtins.contains(defs[j].0),
            DefinitionKind::Shape => names_of(e.shapes).contains(defs[j].0),
            DefinitionKind::Format => names_of(e.formats).contains(defs[j].0),
            DefinitionKind::Alternatives => names_of(e.alternatives).contains(defs[j].0),
        }
}

/// Recording one table of `e` on top of entries recorded from `e` keeps them
/// recorded from `e`.
proof fn lemma_record_step(
    defs: Seq<(Seq<char>, (DefinitionKind, nat))>,
    e: SpecExpanded,
    names: Seq<Seq<char>>,
    kind: DefinitionKind,
    i: nat,
)
    requires
        recorded_from(defs, e),
        kinds_apart(e),
        names == (match kind {
            DefinitionKind::Builtin => e.builtins,
            DefinitionKind::Shape => names_of(e.shapes),
            DefinitionKind::Format => names_of(e.formats),
            DefinitionKind::Alternatives => names_of(e.alternatives),
        }),
        forall|j: int| 0 <= j < defs.len() ==> kind_rank((#[trigger] defs[j]).1.0) < kind_rank(kind),
    ensures
        record_all(defs, names, kind, i, names.len()) matches Ok(d) && recorded_from(d, e) && forall|j: int|
            0 <= j < d.len() ==> kind_rank((#[trigger] d[j]).1.0) <= kind_rank(kind),
{
    assert forall|j: int| 0 <= j < defs.len() && (#[trigger] defs[j]).1.0 != kind implies !names.contains(
        defs[j].0,
    ) by {
        let x = defs[j].0;
        match defs[j].1.0 {
            DefinitionKind::Builtin => assert(e.builtins.contains(x)),
            DefinitionKind::Shape => assert(names_of(e.shapes).contains(x)),
            DefinitionKind::Format => assert(names_of(e.formats).contains(x)),
            DefinitionKind::Alternatives => assert(names_of(e.alternatives).contains(x)),
        }
    }
    lemma_record_all_apart(defs, names, kind, i, names.len());
    let d = record_all(defs, names, kind, i, names.len())->Ok_0;
    assert forall|j: int| 0 <= j < d.len() implies match (#[trigger] d[j]).1.0 {
        DefinitionKind::Builtin => e.builtins.contains(d[j].0),
        DefinitionKind::Shape => names_of(e.shapes).contains(d[j].0),
        DefinitionKind::Format => names_of(e.formats).contains(d[j].0),
        DefinitionKind::Alternatives => names_of(e.alternatives).contains(d[j].0),
    } && kind_rank(d[j].1.0) <= kind_rank(kind) by {
        if j < defs.len() {
            assert(d[j] == defs[j]);
        }
    }
}

/// The order in which the kinds of registration are recorded.
pub open spec fn kind_rank(k: DefinitionKind) -> int {
    match k {
        DefinitionKind::Builtin => 0,
        DefinitionKind::Shape => 1,
        DefinitionKind::Format => 2,
        DefinitionKind::Alternatives => 3,
    }
}

/// Composing one file alone registers exactly what that file's expansion
/// registers (its built-in operations, shapes, formats, alternative grammars
/// and call-target attributes, in order), and succeeds whenever no name of it
/// is defined as two kinds of registration; a file that fails to expand is
/// reported as the first file.
pub proof fn lemma_compose_one(s: SourcedConfig, presets: Seq<(String, RegistryConfig)>)
    ensures
        spec_expanded(s.config, presets, presets.len()) matches Err(p) ==> spec_composed(seq![s], presets)
            == Err::<SpecExpanded, ComposeProblem>(ComposeProblem::Expansion(0, p)),
        spec_composed(seq![s], presets) matches Ok(t) ==> spec_expanded(s.config, presets, presets.len())
            == Ok::<SpecExpanded, RegistryProblem>(t),
        spec_expanded(s.config, presets, presets.len()) matches Ok(e) ==> (kinds_apart(e) ==> spec_composed(
            seq![s],
            presets,
        ) == Ok::<SpecExpanded, ComposeProblem>(e)),
{
    let ss = seq![s];
    assert(compose_phase(ss, presets, 0) == Ok::<ComposeState, ComposeProblem>(nothing_composed()));
    assert(ss[0] == s);
    match spec_expanded(s.config, presets, presets.len()) {
        Err(_) => {},
        Ok(e) => {
            assert(compose_phase(ss, presets, 1) == compose_step(nothing_composed(), e, 0));
            lemma_expansion_distinct(s.config, presets, presets.len());
            lemma_add_names_fresh(e.builtins, e.builtins.len());
            lemma_merge_sourced_fresh(seq![], e.shapes, 0, e.shapes.len());
            lemma_merge_sourced_fresh(seq![], e.formats, 0, e.formats.len());
            lemma_merge_sourced_fresh(seq![], e.alternatives, 0, e.alternatives.len());
            lemma_merge_sourced_fresh(seq![], e.calls, 0, e.calls.len());
            assert(e.builtins.take(e.builtins.len() as int) =~= e.builtins);
            assert(e.shapes.take(e.shapes.len() as int) =~= e.shapes);
            assert(e.formats.take(e.formats.len() as int) =~= e.formats);
            assert(e.alternatives.take(e.alternatives.len() as int) =~= e.alternatives);
            assert(e.calls.take(e.calls.len() as int) =~= e.calls);
            if kinds_apart(e) {
                let d0: Seq<(Seq<char>, (DefinitionKind, nat))> = seq![];
                lemma_record_step(d0, e, e.builtins, DefinitionKind::Builtin, 0);
                let d1 = record_all(d0, e.builtins, DefinitionKind::Builtin, 0, e.builtins.len())->Ok_0;
                lemma_record_step(d1, e, names_of(e.shapes), DefinitionKind::Shape, 0);
                let d2 = record_all(d1, names_of(e.shapes), DefinitionKind::Shape, 0, e.shapes.len())->Ok_0;
                lemma_record_step(d2, e, names_of(e.formats), DefinitionKind::Format, 0);
                let d3 = record_all(d2, names_of(e.formats), DefinitionKind::Format, 0, e.formats.len())->Ok_0;
                lemma_record_step(d3, e, names_of(e.alternatives), DefinitionKind::Alternatives, 0);
            }
        },
    }
}

/// Everything `e` registers, `t` registers too: each built-in operation, and
/// each shape, format, alternative grammar and call-target attribute under the
/// same name with the same value.
pub open spec fn registers_all(t: SpecExpanded, e: SpecExpanded) -> bool {
    &&& forall|x: Seq<char>| #[trigger] e.builtins.contains(x) ==> t.builtins.contains(x)
    &&& forall|x: (Seq<char>, OperationShape)| #[trigger] e.shapes.contains(x) ==> t.shapes.contains(x)
    &&& forall|x: (Seq<char>, Seq<char>)| #[trigger] e.formats.contains(x) ==> t.formats.contains(x)
    &&& forall|x: (Seq<char>, Seq<GrammarView>)| #[trigger] e.alternatives.contains(x) ==> t.alternatives.contains(x)
    &&& forall|x: (Seq<char>, Seq<char>)| #[trigger] e.calls.contains(x) ==> t.calls.contains(x)
}

/// A checked put that succeeds keeps every entry and holds the new one.
proof fn lemma_put_checked_keeps<W>(m: Seq<(Seq<char>, W)>, k: Seq<char>, w: W)
    ensures
        put_checked(m, k, w) matches Some(m3) ==> (forall|x: (Seq<char>, W)| #[trigger] m.contains(x)
            ==> m3.contains(x)) && m3.contains((k, w)),
{
    lemma_slot_meaning(names_of(m), k);
    let s = slot(names_of(m), k);
    if s >= 0 {
        assert(names_of(m)[s] == k);
        if m[s].1 == w {
            assert(m[s] == (k, w));
            assert(m.update(s, (k, w)) =~= m);
        }
    } else {
        let m3 = m.push((k, w));
        assert forall|x: (Seq<char>, W)| #[trigger] m.contains(x) implies m3.contains(x) by {
            let j = choose|j: int| 0 <= j < m.len() && m[j] == x;
            assert(m3[j] == x);
        }
        assert(m3[m.len() as int] == (k, w));
    }
}

/// Merging entries that succeeds keeps every entry and holds each merged one.
proof fn lemma_merge_sourced_keeps<W>(
    m: Seq<(Seq<char>, W)>,
    src: Seq<(Seq<char>, nat)>,
    sub: Seq<(Seq<char>, W)>,
    i: nat,
    n: nat,
)
    requires
        n <= sub.len(),
    ensures
        merge_sourced(m, src, sub, i, n) matches Ok((m2, _)) ==> (forall|x: (Seq<char>, W)| #[trigger] m.contains(
            x,
        ) ==> m2.contains(x)) && (forall|j: int| 0 <= j < n ==> m2.contains(#[trigger] sub[j])),
    decreases n,
{
    if n > 0 {
        lemma_merge_sourced_keeps(m, src, sub, i, (n - 1) as nat);
        match merge_sourced(m, src, sub, i, (n - 1) as nat) {
            Ok((m2, _)) => {
                let k = sub[n - 1].0;
                let w = sub[n - 1].1;
                lemma_put_checked_keeps(m2, k, w);
                assert(sub[n - 1] == (k, w));
            },
            Err(_) => {},
        }
    }
}

/// Adding names keeps every name and holds each added one.
proof fn lemma_add_names_keeps(s: Seq<Seq<char>>, sub: Seq<Seq<char>>, n: nat)
    requires
        n <= sub.len(),
    ensures
        forall|x: Seq<char>| #[trigger] s.contains(x) ==> add_names(s, sub, n).contains(x),
        forall|j: int| 0 <= j < n ==> add_names(s, sub, n).contains(#[trigger] sub[j]),
    decreases n,
{
    if n > 0 {
        lemma_add_names_keeps(s, sub, (n - 1) as nat);
        let before = add_names(s, sub, (n - 1) as nat);
        let after = add_names(s, sub, n);
        assert(after == add_name(before, sub[n - 1]));
        if !before.contains(sub[n - 1]) {
            assert forall|x: Seq<char>| #[trigger] before.contains(x) implies after.contains(x) by {
                let j = choose|j: int| 0 <= j < before.len() && before[j] == x;
                assert(after[j] == x);
            }
            assert(after[before.len() as int] == sub[n - 1]);
        }
        assert forall|x: Seq<char>| #[trigger] s.contains(x) implies after.contains(x) by {
            assert(before.contains(x));
        }
        assert forall|j: int| 0 <= j < n implies after.contains(#[trigger] sub[j]) by {
            if j < n - 1 {
                assert(before.contains(sub[j]));
            }
        }
    }
}

/// Each entry of `sub` is held by `m2` when each of its places is.
proof fn lemma_held_by_place<W>(sub: Seq<(Seq<char>, W)>, m2: Seq<(Seq<char>, W)>)
    requires
        forall|j: int| 0 <= j < sub.len() ==> m2.contains(#[trigger] sub[j]),
    ensures
        forall|x: (Seq<char>, W)| #[trigger] sub.contains(x) ==> m2.contains(x),
{
    assert forall|x: (Seq<char>, W)| #[trigger] sub.contains(x) implies m2.contains(x) by {
        let j = choose|j: int| 0 <= j < sub.len() && sub[j] == x;
        assert(m2.contains(sub[j]));
    }
}

/// A composing step that succeeds keeps what was composed before and adds
/// everything the new file registers.
proof fn lemma_compose_step_keeps(st: ComposeState, e: SpecExpanded, i: nat)
    ensures
        compose_step(st, e, i) matches Ok(st2) ==> registers_all(st2.acc, st.acc) && registers_all(st2.acc, e),
{
    match compose_step(st, e, i) {
        Ok(st2) => {
            lemma_add_names_keeps(st.acc.builtins, e.builtins, e.builtins.len());
            lemma_merge_sourced_keeps(st.acc.shapes, st.shape_sources, e.shapes, i, e.shapes.len());
            lemma_merge_sourced_keeps(st.acc.formats, st.format_sources, e.formats, i, e.formats.len());
            lemma_merge_sourced_keeps(
                st.acc.alternatives,
                st.alternative_sources,
                e.alternatives,
                i,
                e.alternatives.len(),
            );
            lemma_merge_sourced_keeps(st.acc.calls, st.call_sources, e.calls, i, e.calls.len());
            assert(st2.acc.builtins == add_names(st.acc.builtins, e.builtins, e.builtins.len()));
            assert forall|x: Seq<char>| #[trigger] e.builtins.contains(x) implies st2.acc.builtins.contains(x) by {
                let j = choose|j: int| 0 <= j < e.builtins.len() && e.builtins[j] == x;
                assert(st2.acc.builtins.contains(e.builtins[j]));
            }
            lemma_held_by_place(e.shapes, st2.acc.shapes);
            lemma_held_by_place(e.formats, st2.acc.formats);
            lemma_held_by_place(e.alternatives, st2.acc.alternatives);
            lemma_held_by_place(e.calls, st2.acc.calls);
        },
        Err(_) => {},
    }
}

proof fn lemma_compose_phase_keeps(sources: Seq<SourcedConfig>, presets: Seq<(String, RegistryConfig)>, n: nat, j: int)
    requires
        0 <= j < n <= sources.len(),
    ensures
        compose_phase(sources, presets, n) matches Ok(st) ==> (spec_expanded(sources[j].config, presets, presets.len())
            matches Ok(e) && registers_all(st.acc, e)),
    decreases n,
{
    match compose_phase(sources, presets, (n - 1) as nat) {
        Ok(before) => match spec_expanded(sources[n - 1].config, presets, presets.len()) {
            Ok(e) => {
                lemma_compose_step_keeps(before, e, (n - 1) as nat);
                if j < n - 1 {
                    lemma_compose_phase_keeps(sources, presets, (n - 1) as nat, j);
                }
            },
            Err(_) => {},
        },
        Err(_) => {},
    }
}

/// Composing files keeps what each of them registers: when composing a graph's
/// configurations succeeds, every file's expansion succeeds, and each built-in
/// operation, shape, format, alternative grammar and call-target attribute that
/// it registers is registered by the composition, under the same name with the
/// same value.
pub proof fn lemma_composed_keeps_every_file(
    sources: Seq<SourcedConfig>,
    presets: Seq<(String, RegistryConfig)>,
    j: int,
)
    requires
        0 <= j < sources.len(),
    ensures
        spec_composed(sources, presets) matches Ok(t) ==> (spec_expanded(sources[j].config, presets, presets.len())
            matches Ok(e) && registers_all(t, e)),
{
    lemma_compose_phase_keeps(sources, presets, sources.len(), j);
}

/// The registry a loaded graph's configurations build: their composed
/// registrations ([`spec_composed`]), registered; a registration failure is
/// told apart from a file's own failure and from two files' conflict.
pub fn compose_sourced(sources: &Vec<SourcedConfig>, presets: &Vec<(String, RegistryConfig)>) -> (r: Result<
    BuiltRegistry,
    ComposeError,
>)
    requires
        forall|j: int|
            0 <= j < sources@.len() ==> presets_nest(
                presets@,
                (#[trigger] sources@[j]).config.presets@,
                presets@.len(),
            ),
    ensures
        match spec_composed(sources@, presets@) {
            Err(p) => r matches Err(x) && x@ == p,
            Ok(t) => match registration_problem(t) {
                Some(p) => r matches Err(x) && x@ == ComposeProblem::Registration(p),
                None => r matches Ok(b) && (b.registrations@ == t && holds(b.registry, t)),
            },
        },
{
    match compose_registrations(sources, presets) {
        Err(x) => Err(x),
        Ok(e) => match register(e) {
            Err(x) => Err(ComposeError::Registration(x)),
            Ok(b) => Ok(b),
        },
    }
}

} // verus!
