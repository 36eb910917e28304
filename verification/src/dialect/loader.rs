//! The decisions of loading a graph of registry files: the depth, file, byte
//! and edge limits, import cycles, files reached twice, and a file importing
//! the same file twice. The caller reads, resolves and parses the files; each
//! step tells it what to do next.

use vstd::prelude::*;
use crate::dialect::config::RegistryLoadOptions;
use crate::dialect::expand::{entry_names, find_entry, lemma_first_slot, slot, text_entries, texts};

verus! {

/// Where a graph load stands.
#[derive(Clone, Debug)]
pub struct LoaderState {
    pub options: RegistryLoadOptions,
    /// Files read so far.
    pub files: usize,
    /// Import edges followed so far (saturating).
    pub edges: usize,
    /// Bytes read so far.
    pub bytes: usize,
    /// The files being loaded, outermost first: the current import chain.
    pub active: Vec<String>,
    /// For each active file, the files its imports resolved to so far, each with
    /// the import that named it.
    pub siblings: Vec<Vec<(String, String)>>,
    /// The files loaded completely, in the order they were finished.
    pub completed: Vec<String>,
}

/// What happened next in a graph load.
#[derive(Clone, Debug)]
pub enum LoaderEvent {
    /// The file `id` is to be loaded at import depth `depth`.
    Enter(String, usize),
    /// The file `id` was read, parsed, and is `length` bytes long.
    Read(String, usize),
    /// The current file has one more import to follow.
    Edge,
    /// The current file's import (the second text) resolved to `child` (the first).
    Import(String, String),
    /// The current file's imports are all loaded.
    Finish,
}

/// What the caller does next.
#[derive(Clone, Debug, PartialEq, Eq)]
pub enum LoaderAction {
    /// Read the file, at most this many bytes.
    ReadFile(usize),
    /// The file was loaded before: nothing to do.
    AlreadyLoaded,
    /// Go on.
    Continue,
    /// The file is loaded; its configuration takes its place after its imports'.
    Loaded,
    /// The import depth exceeds the limit.
    DepthExceeded,
    /// The file is already on the import chain, from this index on.
    Cycle(usize),
    /// The file count would exceed the limit.
    TooManyFiles,
    /// The bytes read exceed the limit.
    TooManyBytes,
    /// The import edges exceed the limit.
    TooManyEdges,
    /// The current file imports the same file twice; the first import's text.
    DuplicateImport(String),
}

/// A load state in the terms of the specification.
pub struct LoaderView {
    pub options: RegistryLoadOptions,
    pub files: nat,
    pub edges: nat,
    pub bytes: nat,
    pub active: Seq<Seq<char>>,
    pub siblings: Seq<Seq<(Seq<char>, Seq<char>)>>,
    pub completed: Seq<Seq<char>>,
}

impl View for LoaderState {
    type V = LoaderView;

    open spec fn view(&self) -> LoaderView {
        LoaderView {
            options: self.options,
            files: self.files as nat,
            edges: self.edges as nat,
            bytes: self.bytes as nat,
            active: texts(self.active@),
            siblings: self.siblings@.map_values(|v: Vec<(String, String)>| text_entries(v@)),
            completed: texts(self.completed@),
        }
    }
}

/// An event in the terms of the specification.
pub enum EventView {
    Enter(Seq<char>, nat),
    Read(Seq<char>, nat),
    Edge,
    Import(Seq<char>, Seq<char>),
    Finish,
}

impl View for LoaderEvent {
    type V = EventView;

    open spec fn view(&self) -> EventView {
        match self {
            LoaderEvent::Enter(id, depth) => EventView::Enter(id@, *depth as nat),
            LoaderEvent::Read(id, length) => EventView::Read(id@, *length as nat),
            LoaderEvent::Edge => EventView::Edge,
            LoaderEvent::Import(child, import) => EventView::Import(child@, import@),
            LoaderEvent::Finish => EventView::Finish,
        }
    }
}

/// An action in the terms of the specification.
pub enum ActionView {
    ReadFile(nat),
    AlreadyLoaded,
    Continue,
    Loaded,
    DepthExceeded,
    Cycle(nat),
    TooManyFiles,
    TooManyBytes,
    TooManyEdges,
    DuplicateImport(Seq<char>),
}

impl View for LoaderAction {
    type V = ActionView;

    open spec fn view(&self) -> ActionView {
        match self {
            LoaderAction::ReadFile(n) => ActionView::ReadFile(*n as nat),
            LoaderAction::AlreadyLoaded => ActionView::AlreadyLoaded,
            LoaderAction::Continue => ActionView::Continue,
            LoaderAction::Loaded => ActionView::Loaded,
            LoaderAction::DepthExceeded => ActionView::DepthExceeded,
            LoaderAction::Cycle(i) => ActionView::Cycle(*i as nat),
            LoaderAction::TooManyFiles => ActionView::TooManyFiles,
            LoaderAction::TooManyBytes => ActionView::TooManyBytes,
            LoaderAction::TooManyEdges => ActionView::TooManyEdges,
            LoaderAction::DuplicateImport(s) => ActionView::DuplicateImport(s@),
        }
    }
}

/// How many more bytes the limit allows.
pub open spec fn remaining_bytes(s: LoaderView) -> nat {
    if s.bytes <= s.options.max_bytes {
        (s.options.max_bytes - s.bytes) as nat
    } else {
        0
    }
}

/// How many bytes to read of the next file: one past what the limit allows, so
/// that a file over it is seen to be over it.
pub open spec fn read_limit(s: LoaderView) -> nat {
    if remaining_bytes(s) + 1 <= usize::MAX {
        remaining_bytes(s) + 1
    } else {
        usize::MAX as nat
    }
}

/// One step of a graph load: the next state and what the caller does next.
///
/// - Entering a file: a depth past the limit, a file on the current import
///   chain (a cycle, from its first place on the chain), a file loaded before,
///   and a file count at the limit stop or skip it, in that order; otherwise
///   the file is read.
/// - A file read: over the byte limit, or with the file count at its limit, it
///   is refused; otherwise it is counted and becomes the current file.
/// - An edge: it is counted (saturating); past the limit it is refused.
/// - An import resolved: one that resolves to a file the current file already
///   imports is refused with the earlier import's text; otherwise it is
///   recorded.
/// - Finishing: the current file leaves the chain and is loaded.
pub open spec fn load_next(s: LoaderView, e: EventView) -> (LoaderView, ActionView) {
    match e {
        EventView::Enter(id, depth) => {
            if depth > s.options.max_depth {
                (s, ActionView::DepthExceeded)
            } else if s.active.contains(id) {
                (s, ActionView::Cycle(slot(s.active, id) as nat))
            } else if s.completed.contains(id) {
                (s, ActionView::AlreadyLoaded)
            } else if s.files >= s.options.max_files {
                (s, ActionView::TooManyFiles)
            } else {
                (s, ActionView::ReadFile(read_limit(s)))
            }
        },
        EventView::Read(id, length) => {
            if length > remaining_bytes(s) {
                (s, ActionView::TooManyBytes)
            } else if s.files >= s.options.max_files {
                (s, ActionView::TooManyFiles)
            } else {
                (
                    LoaderView {
                        files: s.files + 1,
                        bytes: s.bytes + length,
                        active: s.active.push(id),
                        siblings: s.siblings.push(seq![]),
                        ..s
                    },
                    ActionView::Continue,
                )
            }
        },
        EventView::Edge => {
            let edges = if s.edges + 1 <= usize::MAX {
                s.edges + 1
            } else {
                s.edges
            };
            let t = LoaderView { edges, ..s };
            if edges > s.options.max_edges {
                (t, ActionView::TooManyEdges)
            } else {
                (t, ActionView::Continue)
            }
        },
        EventView::Import(child, import) => {
            let t = s;
            if s.siblings.len() == 0 {
                (t, ActionView::Continue)
            } else {
                let top = s.siblings.last();
                let k = slot(top.map_values(|p: (Seq<char>, Seq<char>)| p.0), child);
                if k >= 0 {
                    (t, ActionView::DuplicateImport(top[k].1))
                } else {
                    (
                        LoaderView {
                            siblings: s.siblings.drop_last().push(top.push((child, import))),
                            ..t
                        },
                        ActionView::Continue,
                    )
                }
            }
        },
        EventView::Finish => {
            if s.active.len() == 0 {
                (s, ActionView::Loaded)
            } else {
                (
                    LoaderView {
                        active: s.active.drop_last(),
                        siblings: if s.siblings.len() > 0 {
                            s.siblings.drop_last()
                        } else {
                            s.siblings
                        },
                        completed: s.completed.push(s.active.last()),
                        ..s
                    },
                    ActionView::Loaded,
                )
            }
        },
    }
}

/// Where `k` first occurs in `v`.
fn position(v: &Vec<String>, k: &String) -> (r: Option<usize>)
    ensures
        match r {
            Some(i) => i < v@.len() && texts(v@).contains(k@) && slot(texts(v@), k@) == i,
            None => !texts(v@).contains(k@),
        },
{
    let mut i: usize = 0;
    while i < v.len()
        invariant
            i <= v@.len(),
            forall|j: int| 0 <= j < i ==> texts(v@)[j] != k@,
        decreases v@.len() - i,
    {
        if v[i] == *k {
            proof {
                lemma_first_slot(texts(v@), k@, i as int);
                assert(texts(v@)[i as int] == k@);
            }
            return Some(i);
        }
        i = i + 1;
    }
    None
}

impl LoaderState {
    /// A load that has read nothing yet.
    pub fn new(options: RegistryLoadOptions) -> (r: Self)
        ensures
            r@ == (LoaderView {
                options,
                files: 0,
                edges: 0,
                bytes: 0,
                active: seq![],
                siblings: seq![],
                completed: seq![],
            }),
    {
        let r = LoaderState {
            options,
            files: 0,
            edges: 0,
            bytes: 0,
            active: Vec::new(),
            siblings: Vec::new(),
            completed: Vec::new(),
        };
        proof {
            assert(r@.active =~= seq![]);
            assert(r@.siblings =~= seq![]);
            assert(r@.completed =~= seq![]);
        }
        r
    }

    /// One step of the load, as [`load_next`] says.
    pub fn step(&mut self, event: LoaderEvent) -> (a: LoaderAction)
        ensures
            (final(self)@, a@) == load_next(old(self)@, event@),
    {
        let ghost s = self@;
        match event {
            LoaderEvent::Enter(id, depth) => {
                if depth > self.options.max_depth {
                    return LoaderAction::DepthExceeded;
                }
                match position(&self.active, &id) {
                    Some(i) => {
                        return LoaderAction::Cycle(i);
                    },
                    None => {},
                }
                if position(&self.completed, &id).is_some() {
                    return LoaderAction::AlreadyLoaded;
                }
                if self.files >= self.options.max_files {
                    return LoaderAction::TooManyFiles;
                }
                let remaining = if self.bytes <= self.options.max_bytes {
                    self.options.max_bytes - self.bytes
                } else {
                    0
                };
                let limit = if remaining < usize::MAX {
                    remaining + 1
                } else {
                    usize::MAX
                };
                LoaderAction::ReadFile(limit)
            },
            LoaderEvent::Read(id, length) => {
                let remaining = if self.bytes <= self.options.max_bytes {
                    self.options.max_bytes - self.bytes
                } else {
                    0
                };
                if length > remaining {
                    return LoaderAction::TooManyBytes;
                }
                if self.files >= self.options.max_files {
                    return LoaderAction::TooManyFiles;
                }
                self.files = self.files + 1;
                self.bytes = self.bytes + length;
                self.active.push(id);
                let fresh: Vec<(String, String)> = Vec::new();
                proof {
                    assert(text_entries(fresh@) =~= seq![]);
                }
                self.siblings.push(fresh);
                proof {
                    assert(self@.active =~= s.active.push(id@));
                    assert(self@.siblings =~= s.siblings.push(seq![]));
                }
                LoaderAction::Continue
            },
            LoaderEvent::Edge => {
                if self.edges < usize::MAX {
                    self.edges = self.edges + 1;
                }
                if self.edges > self.options.max_edges {
                    return LoaderAction::TooManyEdges;
                }
                LoaderAction::Continue
            },
            LoaderEvent::Import(child, import) => {
                let n = self.siblings.len();
                if n == 0 {
                    return LoaderAction::Continue;
                }
                let ghost top = s.siblings.last();
                proof {
                    assert(top == text_entries(self.siblings@[n - 1]@));
                    assert(top.map_values(|p: (Seq<char>, Seq<char>)| p.0) =~= entry_names(
                        self.siblings@[n - 1]@,
                    ));
                }
                match find_entry(&self.siblings[n - 1], &child) {
                    Some(k) => {
                        return LoaderAction::DuplicateImport(self.siblings[n - 1][k].1.clone());
                    },
                    None => {},
                }
                let mut last = self.siblings.pop().unwrap();
                last.push((child, import));
                self.siblings.push(last);
                proof {
                    assert(text_entries(last@) =~= top.push((child@, import@)));
                    assert(self@.siblings =~= s.siblings.drop_last().push(top.push((child@, import@))));
                }
                LoaderAction::Continue
            },
            LoaderEvent::Finish => {
                if self.active.len() == 0 {
                    return LoaderAction::Loaded;
                }
                let id = self.active.pop().unwrap();
                let _ = self.siblings.pop();
                self.completed.push(id);
                proof {
                    assert(self@.active =~= s.active.drop_last());
                    assert(self@.completed =~= s.completed.push(s.active.last()));
                    if s.siblings.len() > 0 {
                        assert(self@.siblings =~= s.siblings.drop_last());
                    } else {
                        assert(self@.siblings =~= s.siblings);
                    }
                }
                LoaderAction::Loaded
            },
        }
    }
}


/// A file, once loaded, is never read again: entering it after it finished is
/// refused or skipped, whatever the depth.
pub proof fn lemma_finished_file_not_reread(s: LoaderView, depth: nat)
    requires
        s.active.len() > 0,
    ensures
        !(load_next(load_next(s, EventView::Finish).0, EventView::Enter(s.active.last(), depth)).1 is ReadFile),
{
    let t = load_next(s, EventView::Finish).0;
    assert(t.completed.last() == s.active.last());
    assert(t.completed.contains(s.active.last()));
}


/// A file being loaded in a graph walk: its identity, its import depth, the
/// imports it lists, and how many of them have been followed.
#[derive(Clone, Debug)]
pub struct WalkFrame {
    pub id: String,
    pub depth: usize,
    pub imports: Vec<String>,
    pub next: usize,
}

/// A depth-first walk of a registry graph from its roots: each file's imports
/// are loaded, in the order it lists them, before the file itself; a file
/// loaded before is skipped. The caller reads, parses and resolves; the walk
/// decides what comes next.
#[derive(Clone, Debug)]
pub struct GraphWalk {
    pub loader: LoaderState,
    pub roots: Vec<String>,
    pub next_root: usize,
    /// The files being loaded, outermost first.
    pub frames: Vec<WalkFrame>,
    /// The file the caller is reading, with its depth.
    pub reading: Option<(String, usize)>,
}

/// What the caller reports to a walk.
#[derive(Clone, Debug)]
pub enum WalkInput {
    /// Go on after an action that needed no answer.
    Next,
    /// The file being read is this many bytes long and lists these imports.
    Read(usize, Vec<String>),
    /// The import last asked for resolved to this file.
    Resolved(String),
}

/// What the caller does next in a walk.
#[derive(Clone, Debug, PartialEq, Eq)]
pub enum WalkAction {
    /// Read at most this many bytes of the file and report `Read`.
    Read(String, usize),
    /// Resolve the import (second) written in the file (first), and report `Resolved`.
    Resolve(String, String),
    /// The file is loaded: its configuration comes next in load order. Report `Next`.
    Loaded(String),
    /// The file was loaded before. Report `Next`.
    Skipped,
    /// Every root is loaded.
    Done,
    /// The load stops: the loader refused what happened.
    Stopped(LoaderAction),
}

pub struct FrameView {
    pub id: Seq<char>,
    pub depth: nat,
    pub imports: Seq<Seq<char>>,
    pub next: nat,
}

pub struct WalkView {
    pub loader: LoaderView,
    pub roots: Seq<Seq<char>>,
    pub next_root: nat,
    pub frames: Seq<FrameView>,
    pub reading: Option<(Seq<char>, nat)>,
}

pub enum InputView {
    Next,
    Read(nat, Seq<Seq<char>>),
    Resolved(Seq<char>),
}

pub enum WalkActionView {
    Read(Seq<char>, nat),
    Resolve(Seq<char>, Seq<char>),
    Loaded(Seq<char>),
    Skipped,
    Done,
    Stopped(ActionView),
}

pub open spec fn frame_view(f: WalkFrame) -> FrameView {
    FrameView { id: f.id@, depth: f.depth as nat, imports: texts(f.imports@), next: f.next as nat }
}

impl View for GraphWalk {
    type V = WalkView;

    open spec fn view(&self) -> WalkView {
        WalkView {
            loader: self.loader@,
            roots: texts(self.roots@),
            next_root: self.next_root as nat,
            frames: self.frames@.map_values(|f: WalkFrame| frame_view(f)),
            reading: match self.reading {
                Some((id, depth)) => Some((id@, depth as nat)),
                None => None,
            },
        }
    }
}

impl View for WalkInput {
    type V = InputView;

    open spec fn view(&self) -> InputView {
        match self {
            WalkInput::Next => InputView::Next,
            WalkInput::Read(n, imports) => InputView::Read(*n as nat, texts(imports@)),
            WalkInput::Resolved(child) => InputView::Resolved(child@),
        }
    }
}

impl View for WalkAction {
    type V = WalkActionView;

    open spec fn view(&self) -> WalkActionView {
        match self {
            WalkAction::Read(id, limit) => WalkActionView::Read(id@, *limit as nat),
            WalkAction::Resolve(id, import) => WalkActionView::Resolve(id@, import@),
            WalkAction::Loaded(id) => WalkActionView::Loaded(id@),
            WalkAction::Skipped => WalkActionView::Skipped,
            WalkAction::Done => WalkActionView::Done,
            WalkAction::Stopped(a) => WalkActionView::Stopped(a@),
        }
    }
}

/// The depth of an import of a file at `depth` (saturating).
pub open spec fn child_depth(depth: nat) -> nat {
    if depth + 1 <= usize::MAX {
        depth + 1
    } else {
        depth
    }
}

/// Entering a file: read it, skip it when it was loaded before, or stop.
pub open spec fn walk_enter(w: WalkView, id: Seq<char>, depth: nat) -> (WalkView, WalkActionView) {
    let (l, a) = load_next(w.loader, EventView::Enter(id, depth));
    match a {
        ActionView::ReadFile(limit) => (
            WalkView { loader: l, reading: Some((id, depth)), ..w },
            WalkActionView::Read(id, limit),
        ),
        ActionView::AlreadyLoaded => (WalkView { loader: l, ..w }, WalkActionView::Skipped),
        _ => (WalkView { loader: l, ..w }, WalkActionView::Stopped(a)),
    }
}

/// What comes next, depth first: the current file's next import, else the
/// current file finished; with no file open, the next root; else done.
pub open spec fn walk_advance(w: WalkView) -> (WalkView, WalkActionView) {
    if w.frames.len() > 0 {
        let top = w.frames.last();
        if top.next < top.imports.len() {
            let (l, a) = load_next(w.loader, EventView::Edge);
            if a != ActionView::Continue {
                (WalkView { loader: l, ..w }, WalkActionView::Stopped(a))
            } else {
                (
                    WalkView {
                        loader: l,
                        frames: w.frames.drop_last().push(FrameView { next: top.next + 1, ..top }),
                        ..w
                    },
                    WalkActionView::Resolve(top.id, top.imports[top.next as int]),
                )
            }
        } else {
            let (l, _) = load_next(w.loader, EventView::Finish);
            (WalkView { loader: l, frames: w.frames.drop_last(), ..w }, WalkActionView::Loaded(top.id))
        }
    } else if w.next_root < w.roots.len() {
        walk_enter(WalkView { next_root: w.next_root + 1, ..w }, w.roots[w.next_root as int], 0)
    } else {
        (w, WalkActionView::Done)
    }
}

/// One step of a walk: what the caller reported applied, then what comes next.
///
/// - A file read: the loader counts it (or stops); it becomes the current
///   file, with its imports to follow.
/// - An import resolved: the loader records it (or stops on a repeated child);
///   the child is entered one level deeper.
/// - Otherwise, or with nothing to report to: the walk advances.
pub open spec fn walk_next(w: WalkView, input: InputView) -> (WalkView, WalkActionView) {
    match input {
        InputView::Read(length, imports) => match w.reading {
            Some((id, depth)) => {
                let (l, a) = load_next(w.loader, EventView::Read(id, length));
                if a != ActionView::Continue {
                    (WalkView { loader: l, ..w }, WalkActionView::Stopped(a))
                } else {
                    walk_advance(
                        WalkView {
                            loader: l,
                            frames: w.frames.push(FrameView { id, depth, imports, next: 0 }),
                            reading: None,
                            ..w
                        },
                    )
                }
            },
            None => walk_advance(w),
        },
        InputView::Resolved(child) => {
            if w.frames.len() > 0 && 0 < w.frames.last().next <= w.frames.last().imports.len() {
                let top = w.frames.last();
                let (l, a) = load_next(
                    w.loader,
                    EventView::Import(child, top.imports[top.next - 1]),
                );
                if a != ActionView::Continue {
                    (WalkView { loader: l, ..w }, WalkActionView::Stopped(a))
                } else {
                    walk_enter(WalkView { loader: l, ..w }, child, child_depth(top.depth))
                }
            } else {
                walk_advance(w)
            }
        },
        InputView::Next => walk_advance(w),
    }
}


impl GraphWalk {
    /// A walk of the graphs of `roots`, in order, that has loaded nothing yet.
    pub fn new(options: RegistryLoadOptions, roots: Vec<String>) -> (r: Self)
        ensures
            r@.loader == (LoaderView {
                options,
                files: 0,
                edges: 0,
                bytes: 0,
                active: seq![],
                siblings: seq![],
                completed: seq![],
            }),
            r@.roots == texts(roots@),
            r@.next_root == 0,
            r@.frames.len() == 0,
            r@.reading is None,
    {
        let r = GraphWalk {
            loader: LoaderState::new(options),
            roots,
            next_root: 0,
            frames: Vec::new(),
            reading: None,
        };
        proof {
            assert(r@.frames =~= seq![]);
        }
        r
    }

    fn enter(&mut self, id: String, depth: usize) -> (a: WalkAction)
        ensures
            (final(self)@, a@) == walk_enter(old(self)@, id@, depth as nat),
    {
        match self.loader.step(LoaderEvent::Enter(id.clone(), depth)) {
            LoaderAction::ReadFile(limit) => {
                self.reading = Some((id.clone(), depth));
                WalkAction::Read(id, limit)
            },
            LoaderAction::AlreadyLoaded => WalkAction::Skipped,
            other => WalkAction::Stopped(other),
        }
    }

    fn advance(&mut self) -> (a: WalkAction)
        ensures
            (final(self)@, a@) == walk_advance(old(self)@),
    {
        let ghost w = self@;
        let n = self.frames.len();
        if n > 0 {
            let ghost top = w.frames.last();
            assert(top == frame_view(self.frames@[n - 1]));
            if self.frames[n - 1].next < self.frames[n - 1].imports.len() {
                match self.loader.step(LoaderEvent::Edge) {
                    LoaderAction::Continue => {},
                    other => {
                        return WalkAction::Stopped(other);
                    },
                }
                let mut frame = self.frames.pop().unwrap();
                let import = frame.imports[frame.next].clone();
                let id = frame.id.clone();
                frame.next = frame.next + 1;
                let ghost f = frame;
                self.frames.push(frame);
                proof {
                    assert(frame_view(f) == FrameView { next: top.next + 1, ..top });
                    assert(self@.frames =~= w.frames.drop_last().push(FrameView { next: top.next + 1, ..top }));
                }
                WalkAction::Resolve(id, import)
            } else {
                let _ = self.loader.step(LoaderEvent::Finish);
                let frame = self.frames.pop().unwrap();
                proof {
                    assert(self@.frames =~= w.frames.drop_last());
                }
                WalkAction::Loaded(frame.id)
            }
        } else if self.next_root < self.roots.len() {
            let root = self.roots[self.next_root].clone();
            self.next_root = self.next_root + 1;
            self.enter(root, 0)
        } else {
            WalkAction::Done
        }
    }

    /// One step of the walk, as [`walk_next`] says.
    pub fn step(&mut self, input: WalkInput) -> (a: WalkAction)
        ensures
            (final(self)@, a@) == walk_next(old(self)@, input@),
    {
        let ghost w = self@;
        match input {
            WalkInput::Read(length, imports) => {
                match self.reading.take() {
                    Some((id, depth)) => {
                        match self.loader.step(LoaderEvent::Read(id.clone(), length)) {
                            LoaderAction::Continue => {},
                            other => {
                                self.reading = Some((id, depth));
                                return WalkAction::Stopped(other);
                            },
                        }
                        let ghost iv = texts(imports@);
                        let ghost idv = id@;
                        self.frames.push(WalkFrame { id, depth, imports, next: 0 });
                        proof {
                            assert(self@.frames =~= w.frames.push(
                                FrameView { id: idv, depth: depth as nat, imports: iv, next: 0 },
                            ));
                        }
                        self.advance()
                    },
                    None => self.advance(),
                }
            },
            WalkInput::Resolved(child) => {
                let n = self.frames.len();
                if n > 0 && self.frames[n - 1].next > 0 && self.frames[n - 1].next
                    <= self.frames[n - 1].imports.len() {
                    let ghost top = w.frames.last();
                    assert(top == frame_view(self.frames@[n - 1]));
                    let import = self.frames[n - 1].imports[self.frames[n - 1].next - 1].clone();
                    let depth = self.frames[n - 1].depth;
                    match self.loader.step(LoaderEvent::Import(child.clone(), import)) {
                        LoaderAction::Continue => {},
                        other => {
                            return WalkAction::Stopped(other);
                        },
                    }
                    let next_depth = if depth < usize::MAX {
                        depth + 1
                    } else {
                        depth
                    };
                    self.enter(child, next_depth)
                } else {
                    self.advance()
                }
            },
            WalkInput::Next => self.advance(),
        }
    }
}


/// A file is loaded after its imports: once read, the walk next follows the
/// file's first import, or, where it lists none, reports the file loaded; it
/// goes to no other file and no later root first.
pub proof fn lemma_imports_come_before_the_file(
    w: WalkView,
    id: Seq<char>,
    depth: nat,
    length: nat,
    imports: Seq<Seq<char>>,
)
    requires
        w.reading == Some((id, depth)),
        load_next(w.loader, EventView::Read(id, length)).1 == ActionView::Continue,
    ensures
        ({
            let a = walk_next(w, InputView::Read(length, imports)).1;
            &&& imports.len() == 0 ==> a == WalkActionView::Loaded(id)
            &&& imports.len() > 0 ==> a == WalkActionView::Resolve(id, imports[0]) || a is Stopped
        }),
{
}

} // verus!
