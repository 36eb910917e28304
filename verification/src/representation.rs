//! Node kinds and identities of the concrete syntax tree.

use vstd::prelude::*;
use crate::lexer::Token;
use crate::source::TextRange;
use vstd::slice::slice_subrange;

verus! {

/// The kind of a syntax-tree node.
#[derive(Clone, Copy, Debug, PartialEq, Eq, Structural)]
pub enum SyntaxKind {
    File,
    FileMetadata,
    AliasDefinition,
    Operation,
    DialectOperation,
    ArithConstantValue,
    UnparsedCustomOperation,
    Region,
    Block,
    Result,
    ResultGroup,
    ResultNumber,
    Operand,
    OperandUse,
    SuccessorList,
    Successor,
    SuccessorArguments,
    BlockLabel,
    BlockArgumentList,
    BlockArgument,
    PropertyDict,
    AttributeDict,
    Attribute,
    IntegerType,
    FloatType,
    IndexType,
    IntegerAttribute,
    FloatAttribute,
    BooleanAttribute,
    StringAttribute,
    TypeAttribute,
    AttributeAlias,
    TypeAlias,
    SymbolReference,
    ArrayAttribute,
    DictionaryAttribute,
    LocationAttribute,
    UnknownLocation,
    FileLineColLocation,
    NameLocation,
    CallSiteLocation,
    FusedLocation,
    TrailingLocation,
    FunctionType,
    TupleType,
    TensorType,
    VectorType,
    MemRefType,
    ShapedDimension,
    TensorEncoding,
    MemRefLayout,
    MemRefMemorySpace,
    StridedLayout,
    AffineMap,
    IntegerSet,
    AffineExpression,
    AffineConstraint,
    DenseElementsAttribute,
    SparseElementsAttribute,
    DenseResourceElementsAttribute,
    WideNumber,
    OpaqueAttribute,
    OpaqueAttributeBody,
    OpaqueType,
    OpaqueTypeBody,
    Error,
}


/// The identity of a node: its position in the tree's pre-order.
#[derive(Clone, Copy, Debug, PartialEq, Eq, Hash, Structural)]
pub struct NodeId {
    index: usize,
}

impl NodeId {
    pub closed spec fn spec_index(self) -> int {
        self.index as int
    }

    pub fn from_index(index: usize) -> (r: NodeId)
        ensures
            r.spec_index() == index,
    {
        NodeId { index }
    }

    pub fn index(self) -> (r: usize)
        ensures
            r == self.spec_index(),
    {
        self.index
    }
}

/// A node of the arena: its kind, where its subtree ends in pre-order, the
/// tokens `[first, last)` that it covers, and whether it was completed in error.
#[derive(Clone, Copy, Debug)]
pub struct NodeInfo {
    pub kind: SyntaxKind,
    pub end: usize,
    pub first: usize,
    pub last: usize,
    pub error: bool,
}

/// A lossless concrete syntax tree: nodes in pre-order over the file's tokens.
#[derive(Debug)]
pub struct SyntaxTree {
    tokens: Vec<Token>,
    nodes: Vec<NodeInfo>,
}

/// Nodes `i` and `j` nest: a node inside the subtree of `i` ends within it and
/// covers a part of its tokens.
pub open spec fn nests(end_i: int, first_i: int, last_i: int, end_j: int, first_j: int, last_j: int) -> bool {
    end_j <= end_i && first_i <= first_j && last_j <= last_i
}

impl SyntaxTree {
    pub closed spec fn spec_len(&self) -> nat {
        self.nodes@.len()
    }

    pub closed spec fn spec_kind(&self, i: int) -> SyntaxKind {
        self.nodes@[i].kind
    }

    /// One past the last node of the subtree of `i`, in pre-order.
    pub closed spec fn spec_end(&self, i: int) -> int {
        self.nodes@[i].end as int
    }

    /// The first token that node `i` covers.
    pub closed spec fn spec_first(&self, i: int) -> int {
        self.nodes@[i].first as int
    }

    /// One past the last token that node `i` covers.
    pub closed spec fn spec_last(&self, i: int) -> int {
        self.nodes@[i].last as int
    }

    pub closed spec fn spec_tokens(&self) -> Seq<Token> {
        self.tokens@
    }

    /// Whether node `i` itself was completed in error.
    pub closed spec fn spec_error(&self, i: int) -> bool {
        self.nodes@[i].error
    }

    #[verifier::type_invariant]
    closed spec fn well_formed(&self) -> bool {
        &&& forall|i: int|
            0 <= i < self.nodes@.len() ==> i < #[trigger] self.nodes@[i].end <= self.nodes@.len()
                && self.nodes@[i].first <= self.nodes@[i].last <= self.tokens@.len()
        &&& forall|i: int, j: int|
            0 <= i < j < self.nodes@[i].end && i < self.nodes@.len() ==> nests(
                #[trigger] self.nodes@[i].end as int,
                self.nodes@[i].first as int,
                self.nodes@[i].last as int,
                #[trigger] self.nodes@[j].end as int,
                self.nodes@[j].first as int,
                self.nodes@[j].last as int,
            )
        &&& self.nodes@.len() > 0
        &&& self.nodes@[0].end == self.nodes@.len()
        &&& self.nodes@[0].first == 0
        &&& self.nodes@[0].last == self.tokens@.len()
    }

    pub open spec fn valid(&self, id: NodeId) -> bool {
        0 <= id.spec_index() < self.spec_len()
    }

    /// The children of a node whose subtree ends at `end`, from the child at `c` on.
    pub closed spec fn children_from(&self, c: int, end: int) -> Seq<NodeId>
        decreases end - c,
    {
        if c < 0 || c >= end || self.spec_end(c) <= c || self.spec_end(c) > end {
            seq![]
        } else {
            seq![NodeId { index: c as usize }] + self.children_from(self.spec_end(c), end)
        }
    }

    /// The children of node `i`, in order.
    pub closed spec fn spec_children(&self, i: int) -> Seq<NodeId> {
        self.children_from(i + 1, self.spec_end(i))
    }

    /// Whether a node of the subtree of node `i` was completed in error.
    pub open spec fn spec_has_error(&self, i: int) -> bool {
        exists|j: int| i <= j < self.spec_end(i) && self.spec_error(j)
    }

    /// The nodes `lo..hi` whose kind is one of `kinds`.
    pub closed spec fn select(&self, lo: int, hi: int, kinds: Seq<SyntaxKind>) -> Seq<NodeId>
        decreases hi - lo,
    {
        if hi <= lo {
            seq![]
        } else {
            let rest = self.select(lo, hi - 1, kinds);
            if kinds.contains(self.spec_kind(hi - 1)) {
                rest.push(NodeId { index: (hi - 1) as usize })
            } else {
                rest
            }
        }
    }

    /// The tree is never empty: the root is node 0 and spans all nodes and tokens.
    pub fn root(&self) -> (r: NodeId)
        ensures
            r.spec_index() == 0,
            self.spec_len() > 0,
            self.spec_end(0) == self.spec_len(),
            self.spec_first(0) == 0,
            self.spec_last(0) == self.spec_tokens().len(),
    {
        proof {
            use_type_invariant(self);
        }
        NodeId { index: 0 }
    }

    /// The number of nodes.
    pub fn len(&self) -> (r: usize)
        ensures
            r == self.spec_len(),
    {
        self.nodes.len()
    }

    pub fn kind(&self, id: NodeId) -> (r: Option<SyntaxKind>)
        ensures
            r == (if self.valid(id) {
                Some(self.spec_kind(id.spec_index()))
            } else {
                None
            }),
    {
        if id.index < self.nodes.len() {
            Some(self.nodes[id.index].kind)
        } else {
            None
        }
    }

    /// The facts the type invariant gives about one node.
    fn node_facts(&self, i: usize) -> (r: (usize, usize, usize))
        requires
            i < self.spec_len(),
        ensures
            r.0 == self.spec_end(i as int),
            r.1 == self.spec_first(i as int),
            r.2 == self.spec_last(i as int),
            i < r.0 <= self.spec_len(),
            r.1 <= r.2 <= self.spec_tokens().len(),
            forall|j: int|
                i < j < self.spec_end(i as int) ==> nests(
                    self.spec_end(i as int),
                    self.spec_first(i as int),
                    self.spec_last(i as int),
                    #[trigger] self.spec_end(j),
                    self.spec_first(j),
                    self.spec_last(j),
                ),
            forall|j: int|
                i < j < self.spec_end(i as int) ==> j < #[trigger] self.spec_end(j) <= self.spec_len(),
    {
        proof {
            use_type_invariant(self);
            assert forall|j: int| i < j < self.spec_end(i as int) implies nests(
                self.spec_end(i as int),
                self.spec_first(i as int),
                self.spec_last(i as int),
                self.spec_end(j),
                self.spec_first(j),
                self.spec_last(j),
            ) && j < self.spec_end(j) <= self.spec_len() by {
                assert(nests(
                    self.nodes@[i as int].end as int,
                    self.nodes@[i as int].first as int,
                    self.nodes@[i as int].last as int,
                    self.nodes@[j].end as int,
                    self.nodes@[j].first as int,
                    self.nodes@[j].last as int,
                ));
                assert(j < self.nodes@[j].end <= self.nodes@.len());
            }
        }
        let n = self.nodes[i];
        (n.end, n.first, n.last)
    }

    /// The children of a node, in order.
    pub fn children(&self, id: NodeId) -> (r: Option<Vec<NodeId>>)
        ensures
            match r {
                Some(v) => self.valid(id) && v@ == self.spec_children(id.spec_index()) && forall|k: int|
                    0 <= k < v@.len() ==> self.valid(#[trigger] v@[k]),
                None => !self.valid(id),
            },
    {
        if id.index >= self.nodes.len() {
            return None;
        }
        let (end, _, _) = self.node_facts(id.index);
        assert(forall|j: int| id.spec_index() < j < end ==> j < #[trigger] self.spec_end(j) <= end);
        let mut result: Vec<NodeId> = Vec::new();
        let mut c = id.index + 1;
        while c < end
            invariant
                id.index < c <= end <= self.spec_len(),
                end == self.spec_end(id.spec_index()),
                forall|j: int|
                    id.spec_index() < j < end ==> j < #[trigger] self.spec_end(j) <= end,
                result@ + self.children_from(c as int, end as int) == self.spec_children(
                    id.spec_index(),
                ),
                forall|k: int| 0 <= k < result@.len() ==> self.valid(#[trigger] result@[k]),
            decreases end - c,
        {
            let ghost before = result@;
            result.push(NodeId { index: c });
            let next = self.nodes[c].end;
            proof {
                assert(result@ + self.children_from(next as int, end as int) =~= before
                    + self.children_from(c as int, end as int));
            }
            c = next;
        }
        proof {
            assert(result@ + Seq::<NodeId>::empty() =~= result@);
        }
        Some(result)
    }

    /// All nodes of the subtree of `id`, in pre-order.
    pub fn subtree(&self, id: NodeId) -> (r: Option<Vec<NodeId>>)
        ensures
            match r {
                Some(v) => self.valid(id) && v@.len() == self.spec_end(id.spec_index())
                    - id.spec_index() && forall|k: int|
                    0 <= k < v@.len() ==> (#[trigger] v@[k]).spec_index() == id.spec_index() + k,
                None => !self.valid(id),
            },
    {
        if id.index >= self.nodes.len() {
            return None;
        }
        let (end, _, _) = self.node_facts(id.index);
        let mut result: Vec<NodeId> = Vec::new();
        let mut c = id.index;
        while c < end
            invariant
                id.index <= c <= end,
                result@.len() == c - id.index,
                forall|k: int| 0 <= k < result@.len() ==> (#[trigger] result@[k]).spec_index()
                    == id.spec_index() + k,
            decreases end - c,
        {
            result.push(NodeId { index: c });
            c = c + 1;
        }
        Some(result)
    }

    /// The tokens that a node covers.
    pub fn tokens(&self, id: NodeId) -> (r: Option<&[Token]>)
        ensures
            match r {
                Some(t) => self.valid(id) && t@ == self.spec_tokens().subrange(
                    self.spec_first(id.spec_index()),
                    self.spec_last(id.spec_index()),
                ) && 0 <= self.spec_first(id.spec_index()) <= self.spec_last(id.spec_index())
                    <= self.spec_tokens().len(),
                None => !self.valid(id),
            },
    {
        if id.index >= self.nodes.len() {
            return None;
        }
        let (_, first, last) = self.node_facts(id.index);
        Some(slice_subrange(self.tokens.as_slice(), first, last))
    }

    /// The tokens `[first, last)` that a node covers.
    pub fn token_span(&self, id: NodeId) -> (r: Option<(usize, usize)>)
        ensures
            match r {
                Some(span) => self.valid(id) && span.0 == self.spec_first(id.spec_index()) && span.1
                    == self.spec_last(id.spec_index()) && span.0 <= span.1 <= self.spec_tokens().len(),
                None => !self.valid(id),
            },
    {
        if id.index >= self.nodes.len() {
            return None;
        }
        let (_, first, last) = self.node_facts(id.index);
        Some((first, last))
    }

    /// The innermost node whose subtree holds `id`; `None` for the root and for an
    /// unknown node.
    pub fn parent(&self, id: NodeId) -> (r: Option<NodeId>)
        ensures
            r matches Some(p) ==> self.valid(id) && 0 <= p.spec_index() < id.spec_index() && id.spec_index()
                < self.spec_end(p.spec_index()) && forall|j: int|
                p.spec_index() < j < id.spec_index() ==> #[trigger] self.spec_end(j) <= id.spec_index(),
            r is None ==> !self.valid(id) || forall|j: int|
                0 <= j < id.spec_index() ==> #[trigger] self.spec_end(j) <= id.spec_index(),
    {
        if id.index >= self.nodes.len() {
            return None;
        }
        let mut j = id.index;
        while j > 0
            invariant
                j <= id.index < self.spec_len(),
                forall|k: int| j <= k < id.index ==> #[trigger] self.spec_end(k) <= id.index,
            decreases j,
        {
            j = j - 1;
            if self.nodes[j].end > id.index {
                return Some(NodeId { index: j });
            }
        }
        None
    }

    /// The bytes a node spans, from the start of its first token to the end of
    /// its last; `None` for an unknown node or one that covers no token.
    pub fn text_range(&self, id: NodeId) -> (r: Option<TextRange>)
        ensures
            r is Some <==> self.valid(id) && self.spec_first(id.spec_index()) < self.spec_last(
                id.spec_index(),
            ) && self.spec_tokens()[self.spec_first(id.spec_index())].spec_start()
                <= self.spec_tokens()[self.spec_last(id.spec_index()) - 1].spec_end(),
            r matches Some(range) ==> range.spec_start() == self.spec_tokens()[self.spec_first(
                id.spec_index(),
            )].spec_start() && range.spec_end() == self.spec_tokens()[self.spec_last(
                id.spec_index(),
            ) - 1].spec_end(),
    {
        if id.index >= self.nodes.len() {
            return None;
        }
        let (_, first, last) = self.node_facts(id.index);
        if first >= last {
            return None;
        }
        TextRange::new(self.tokens[first].range().start(), self.tokens[last - 1].range().end())
    }

    /// Whether a node of a node's subtree was completed in error.
    pub fn has_error(&self, id: NodeId) -> (r: Option<bool>)
        ensures
            r == (if self.valid(id) {
                Some(self.spec_has_error(id.spec_index()))
            } else {
                None
            }),
    {
        if id.index >= self.nodes.len() {
            return None;
        }
        let (end, _, _) = self.node_facts(id.index);
        let mut j = id.index;
        while j < end
            invariant
                id.index <= j <= end <= self.spec_len(),
                end == self.spec_end(id.spec_index()),
                forall|k: int| id.index <= k < j ==> !self.spec_error(k),
            decreases end - j,
        {
            if self.nodes[j].error {
                assert(self.spec_error(j as int));
                return Some(true);
            }
            j = j + 1;
        }
        Some(false)
    }

    /// The nodes of the whole tree whose kind is one of `kinds`, in pre-order.
    pub fn select_kinds(&self, kinds: &[SyntaxKind]) -> (r: Vec<NodeId>)
        ensures
            r@ == self.select(0, self.spec_len() as int, kinds@),
            forall|k: int| 0 <= k < r@.len() ==> self.valid(#[trigger] r@[k]),
    {
        let mut result: Vec<NodeId> = Vec::new();
        let mut i: usize = 0;
        while i < self.nodes.len()
            invariant
                i <= self.spec_len(),
                result@ == self.select(0, i as int, kinds@),
                forall|k: int| 0 <= k < result@.len() ==> (#[trigger] result@[k]).spec_index() < i,
            decreases self.spec_len() - i,
        {
            let kind = self.nodes[i].kind;
            let mut k: usize = 0;
            let mut found = false;
            while k < kinds.len()
                invariant
                    k <= kinds@.len(),
                    found <==> exists|m: int| 0 <= m < k && kinds@[m] == kind,
                decreases kinds@.len() - k,
            {
                if kinds[k] == kind {
                    found = true;
                }
                k = k + 1;
            }
            if found {
                result.push(NodeId { index: i });
            }
            i = i + 1;
        }
        result
    }
}

/// Why a builder could not produce a tree.
#[derive(Clone, Copy, Debug, PartialEq, Eq, Structural)]
pub enum TreeError {
    /// A node was still open.
    UnclosedNode,
    /// No node was built.
    Empty,
    /// The first node does not enclose all the others.
    SeveralRoots,
    /// The root does not cover every token.
    UncoveredTokens,
}

/// The invariant of a builder's arena: the open nodes form an increasing chain of
/// unfinished nodes, finished nodes nest, and nodes start in token order.
pub closed spec fn arena_wf(nodes: Seq<NodeInfo>, open: Seq<usize>, cursor: int, ntok: int) -> bool {
        let n = nodes.len();
        &&& cursor <= ntok
        &&& forall|k: int|
            0 <= k < open.len() ==> #[trigger] open[k] < n && nodes[open[k] as int].end
                == 0
        &&& forall|k1: int, k2: int|
            0 <= k1 < k2 < open.len() ==> #[trigger] open[k1] < #[trigger] open[k2]
        &&& forall|i: int|
            0 <= i < n && #[trigger] nodes[i].end == 0 ==> open.contains(i as usize)
        &&& forall|i: int|
            0 <= i < n ==> #[trigger] nodes[i].first <= nodes[i].last <= cursor
        &&& forall|i: int|
            0 <= i < n && #[trigger] nodes[i].end != 0 ==> i < nodes[i].end <= n
        &&& forall|i: int, j: int|
            0 <= i < j < n && nodes[i].end != 0 && j < #[trigger] nodes[i].end ==> (
            #[trigger] nodes[j].end) != 0 && nests(
                nodes[i].end as int,
                nodes[i].first as int,
                nodes[i].last as int,
                nodes[j].end as int,
                nodes[j].first as int,
                nodes[j].last as int,
            )
        &&& forall|k: int, j: int|
            0 <= k < open.len() && #[trigger] open[k] < j < n ==> nodes[open[k] as int].first
                <= #[trigger] nodes[j].first
        &&& forall|i: int, j: int|
            0 <= i < j < n ==> #[trigger] nodes[i].first <= #[trigger] nodes[j].first
    }

/// Where the finished nodes of an arena lie relative to `c`, a finished child of
/// the innermost open node.
proof fn lemma_child_facts(old_nodes: Seq<NodeInfo>, old_open: Seq<usize>, cursor: int, ntok: int, c: int)
    requires
        old_nodes.len() <= usize::MAX,
        arena_wf(old_nodes, old_open, cursor, ntok),
        old_open.len() > 0,
        old_open.last() < c < old_nodes.len(),
        old_nodes[c].end != 0,
        forall|i: int| old_open.last() < i < c ==> #[trigger] old_nodes[i].end <= c,
    ensures
        forall|k: int| 0 <= k < old_open.len() ==> #[trigger] old_open[k] < c,
        forall|k: int| c <= k < old_nodes.len() ==> #[trigger] old_nodes[k].end != 0 && old_nodes[k].end <= old_nodes.len(),
        forall|k: int| 0 <= k < c && #[trigger] old_nodes[k].end != 0 ==> old_nodes[k].end <= c,
{
    let n = old_nodes.len() as int;
    let o = old_open.last() as int;
    assert forall|k: int| 0 <= k < old_open.len() implies #[trigger] old_open[k] < c by {
        assert(old_open[k] <= old_open[old_open.len() - 1]);
    }
    assert forall|k: int| c <= k < n implies #[trigger] old_nodes[k].end != 0 && old_nodes[k].end <= n by {
        if old_nodes[k].end == 0 {
            assert(old_open.contains(k as usize));
            let m = choose|m: int| 0 <= m < old_open.len() && old_open[m] == k as usize;
            assert(old_open[m] < c);
        }
    }
    assert forall|k: int| 0 <= k < c && #[trigger] old_nodes[k].end != 0 implies old_nodes[k].end <= c by {
        if k > o {
        } else if old_nodes[k].end > c {
            assert(k != o);
            assert(o < old_nodes[k].end);
            assert(old_nodes[o].end != 0);
        }
    }
}

/// The nesting of finished nodes survives the insertion in front of `c`.
proof fn lemma_precede_nesting(
    old_nodes: Seq<NodeInfo>,
    old_open: Seq<usize>,
    nn: Seq<NodeInfo>,
    cursor: int,
    ntok: int,
    c: int,
    kind: SyntaxKind,
)
    requires
        arena_wf(old_nodes, old_open, cursor, ntok),
        old_open.len() > 0,
        old_open.last() < c < old_nodes.len(),
        old_nodes[c].end != 0,
        forall|i: int| old_open.last() < i < c ==> #[trigger] old_nodes[i].end <= c,
        nn.len() == old_nodes.len() + 1,
        forall|k: int| 0 <= k < c ==> nn[k] == old_nodes[k],
        nn[c] == (NodeInfo { kind, end: 0, first: old_nodes[c].first, last: cursor as usize, error: false }),
        forall|k: int| c < k < nn.len() ==> #[trigger] nn[k] == (NodeInfo {
            kind: old_nodes[k - 1].kind,
            end: (old_nodes[k - 1].end + 1) as usize,
            first: old_nodes[k - 1].first,
            last: old_nodes[k - 1].last,
            error: old_nodes[k - 1].error,
        }),
        0 <= cursor <= usize::MAX,
        old_nodes.len() < usize::MAX,
        forall|k: int| 0 <= k < c && #[trigger] old_nodes[k].end != 0 ==> old_nodes[k].end <= c,
    ensures
        forall|a: int, b: int|
            0 <= a < b < nn.len() && nn[a].end != 0 && b < #[trigger] nn[a].end ==> (#[trigger] nn[b].end) != 0
                && nests(
                nn[a].end as int,
                nn[a].first as int,
                nn[a].last as int,
                nn[b].end as int,
                nn[b].first as int,
                nn[b].last as int,
            ),
{
    assert forall|a: int, b: int|
        0 <= a < b < nn.len() && nn[a].end != 0 && b < #[trigger] nn[a].end implies (#[trigger] nn[b].end) != 0
            && nests(
            nn[a].end as int,
            nn[a].first as int,
            nn[a].last as int,
            nn[b].end as int,
            nn[b].first as int,
            nn[b].last as int,
        ) by {
        if a < c {
            assert(nn[a] == old_nodes[a]);
            assert(old_nodes[a].end <= c);
            assert(nn[b] == old_nodes[b]);
        } else {
            let na = nn[a];
            let nb = nn[b];
            let oa = old_nodes[a - 1];
            let ob = old_nodes[b - 1];
            assert(na.end == oa.end + 1);
            assert(oa.end != 0);
            assert(a - 1 < b - 1 < oa.end);
            assert(ob.end != 0 && nests(
                oa.end as int,
                oa.first as int,
                oa.last as int,
                ob.end as int,
                ob.first as int,
                ob.last as int,
            ));
            assert(nb.end == ob.end + 1);
        }
    }
}

/// Inserting an open node in front of `c`, a finished child of the innermost open
/// node, and shifting the ends of the nodes after it keeps the arena invariant.
#[verifier::spinoff_prover]
#[verifier::rlimit(80)]
proof fn lemma_precede_arena(
    old_nodes: Seq<NodeInfo>,
    old_open: Seq<usize>,
    nn: Seq<NodeInfo>,
    cursor: int,
    ntok: int,
    c: int,
    kind: SyntaxKind,
)
    requires
        arena_wf(old_nodes, old_open, cursor, ntok),
        old_open.len() > 0,
        old_open.last() < c < old_nodes.len(),
        old_nodes[c].end != 0,
        forall|i: int| old_open.last() < i < c ==> #[trigger] old_nodes[i].end <= c,
        nn.len() == old_nodes.len() + 1,
        forall|k: int| 0 <= k < c ==> nn[k] == old_nodes[k],
        nn[c] == (NodeInfo { kind, end: 0, first: old_nodes[c].first, last: cursor as usize, error: false }),
        forall|k: int| c < k < nn.len() ==> #[trigger] nn[k] == (NodeInfo {
            kind: old_nodes[k - 1].kind,
            end: (old_nodes[k - 1].end + 1) as usize,
            first: old_nodes[k - 1].first,
            last: old_nodes[k - 1].last,
            error: old_nodes[k - 1].error,
        }),
        0 <= cursor <= usize::MAX,
        old_nodes.len() < usize::MAX,
    ensures
        arena_wf(nn, old_open.push(c as usize), cursor, ntok),
{
    let n = old_nodes.len() as int;
    let open = old_open.push(c as usize);
    lemma_child_facts(old_nodes, old_open, cursor, ntok, c);
    lemma_precede_nesting(old_nodes, old_open, nn, cursor, ntok, c, kind);
    assert forall|k: int| 0 <= k < open.len() implies #[trigger] open[k] < nn.len() && nn[open[k] as int].end == 0 by {
        if k < old_open.len() {
            assert(open[k] == old_open[k]);
        }
    }
    assert forall|k1: int, k2: int| 0 <= k1 < k2 < open.len() implies #[trigger] open[k1] < #[trigger] open[k2] by {
        if k2 == old_open.len() {
            assert(open[k1] == old_open[k1]);
        }
    }
    assert forall|k: int| 0 <= k < nn.len() && #[trigger] nn[k].end == 0 implies open.contains(k as usize) by {
        if k < c {
            assert(old_nodes[k].end == 0);
            assert(old_open.contains(k as usize));
            let m = choose|m: int| 0 <= m < old_open.len() && old_open[m] == k as usize;
            assert(open[m] == k as usize);
        } else if k == c {
            assert(open[old_open.len() as int] == c as usize);
        } else {
            assert(old_nodes[k - 1].end != 0);
        }
    }
    assert forall|k: int| 0 <= k < nn.len() implies #[trigger] nn[k].first <= nn[k].last <= cursor by {
        if k < c {
        } else if k == c {
            assert(old_nodes[c].first <= old_nodes[c].last);
        } else {
            assert(old_nodes[k - 1].first <= old_nodes[k - 1].last);
        }
    }
    assert forall|k: int| 0 <= k < nn.len() && #[trigger] nn[k].end != 0 implies k < nn[k].end <= nn.len() by {
        if k < c {
            assert(old_nodes[k].end != 0);
        } else if k > c {
            assert(old_nodes[k - 1].end != 0);
        }
    }
    assert forall|a: int, b: int| 0 <= a < b < nn.len() implies #[trigger] nn[a].first <= #[trigger] nn[b].first by {
        if b < c {
        } else if b == c {
            assert(old_nodes[a].first <= old_nodes[c].first);
        } else if a < c {
            assert(old_nodes[a].first <= old_nodes[b - 1].first);
        } else if a == c {
            if b - 1 > c {
                assert(old_nodes[c].first <= old_nodes[b - 1].first);
            }
        } else {
            assert(old_nodes[a - 1].first <= old_nodes[b - 1].first);
        }
    }
    assert forall|k: int, j: int|
        0 <= k < open.len() && #[trigger] open[k] < j < nn.len() implies nn[open[k] as int].first
        <= #[trigger] nn[j].first by {
        let ok = open[k] as int;
        assert(ok <= c);
        assert(nn[ok].first <= nn[j].first);
    }
}

/// Builds a syntax tree over a token tape: nodes open and close around the tokens
/// they cover, in order.
pub struct TreeBuilder {
    tokens: Vec<Token>,
    nodes: Vec<NodeInfo>,
    open: Vec<usize>,
    cursor: usize,
}

impl TreeBuilder {
    pub closed spec fn spec_tokens(&self) -> Seq<Token> {
        self.tokens@
    }

    /// The open nodes, outermost first.
    pub closed spec fn spec_open(&self) -> Seq<int> {
        self.open@.map_values(|k: usize| k as int)
    }

    /// How many tokens the nodes built so far have consumed.
    pub closed spec fn spec_cursor(&self) -> int {
        self.cursor as int
    }

    /// The nodes built so far, in pre-order.
    pub closed spec fn spec_nodes(&self) -> Seq<NodeInfo> {
        self.nodes@
    }

    pub open spec fn spec_len(&self) -> nat {
        self.spec_nodes().len()
    }

    pub open spec fn spec_kind(&self, i: int) -> SyntaxKind {
        self.spec_nodes()[i].kind
    }

    /// Where a finished node's subtree ends; 0 while the node is open.
    pub open spec fn spec_end(&self, i: int) -> int {
        self.spec_nodes()[i].end as int
    }

    pub open spec fn spec_first(&self, i: int) -> int {
        self.spec_nodes()[i].first as int
    }

    pub open spec fn spec_last(&self, i: int) -> int {
        self.spec_nodes()[i].last as int
    }

    pub open spec fn spec_error(&self, i: int) -> bool {
        self.spec_nodes()[i].error
    }

    /// The builder's invariant: open nodes form a chain, closed nodes nest.
    pub closed spec fn wf(&self) -> bool {
        arena_wf(self.nodes@, self.open@, self.cursor as int, self.tokens@.len() as int)
    }

    /// A builder over `tokens` with no node yet.
    pub fn new(tokens: Vec<Token>) -> (r: TreeBuilder)
        ensures
            r.wf(),
            r.spec_tokens() == tokens@,
            r.spec_len() == 0,
            r.spec_open().len() == 0,
            r.spec_cursor() == 0,
    {
        TreeBuilder { tokens, nodes: Vec::new(), open: Vec::new(), cursor: 0 }
    }

    /// Opens a node of `kind` at the current token.
    pub fn start_node(&mut self, kind: SyntaxKind) -> (r: NodeId)
        requires
            old(self).wf(),
        ensures
            final(self).wf(),
            r.spec_index() == old(self).spec_len(),
            final(self).spec_len() == old(self).spec_len() + 1,
            final(self).spec_tokens() == old(self).spec_tokens(),
            final(self).spec_cursor() == old(self).spec_cursor(),
            final(self).spec_open() == old(self).spec_open().push(r.spec_index()),
            final(self).spec_kind(r.spec_index()) == kind,
            final(self).spec_first(r.spec_index()) == old(self).spec_cursor(),
            final(self).spec_end(r.spec_index()) == 0,
            !final(self).spec_error(r.spec_index()),
            final(self).spec_last(r.spec_index()) == old(self).spec_cursor(),
            final(self).spec_nodes() == old(self).spec_nodes().push(
                final(self).spec_nodes()[r.spec_index()],
            ),
    {
        let index = self.nodes.len();
        let cursor = self.cursor;
        let ghost old_open = self.open@;
        let ghost old_nodes = self.nodes@;
        self.nodes.push(NodeInfo { kind, end: 0, first: cursor, last: cursor, error: false });
        self.open.push(index);
        proof {
            assert(self.open@.map_values(|k: usize| k as int) =~= old_open.map_values(|k: usize| k as int).push(index as int));
            assert forall|i: int|
                0 <= i < self.nodes@.len() && #[trigger] self.nodes@[i].end == 0 implies self.open@.contains(
                i as usize,
            ) by {
                if i < index {
                    assert(old_nodes[i].end == 0);
                    let k = choose|k: int| 0 <= k < old_open.len() && old_open[k] == i as usize;
                    assert(self.open@[k] == i as usize);
                } else {
                    assert(self.open@[old_open.len() as int] == i as usize);
                }
            }
        }
        NodeId { index }
    }

    /// Open nodes are unfinished nodes of the arena, in increasing order.
    pub proof fn lemma_open_nodes(&self)
        requires
            self.wf(),
        ensures
            forall|k: int|
                0 <= k < self.spec_open().len() ==> 0 <= #[trigger] self.spec_open()[k] < self.spec_len()
                    && self.spec_end(self.spec_open()[k]) == 0,
            forall|k1: int, k2: int|
                0 <= k1 < k2 < self.spec_open().len() ==> #[trigger] self.spec_open()[k1]
                    < #[trigger] self.spec_open()[k2],
    {
        assert forall|k: int| 0 <= k < self.spec_open().len() implies 0 <= #[trigger] self.spec_open()[k]
            < self.spec_len() && self.spec_end(self.spec_open()[k]) == 0 by {
            assert(self.spec_open()[k] == self.open@[k] as int);
        }
        assert forall|k1: int, k2: int| 0 <= k1 < k2 < self.spec_open().len() implies #[trigger] self.spec_open()[k1]
            < #[trigger] self.spec_open()[k2] by {
            assert(self.spec_open()[k1] == self.open@[k1] as int);
            assert(self.spec_open()[k2] == self.open@[k2] as int);
        }
    }

    /// How many nodes are open.
    pub fn open_len(&self) -> (r: usize)
        ensures
            r == self.spec_open().len(),
    {
        self.open.len()
    }

    /// Whether a token remains to be consumed.
    pub fn at_end(&self) -> (r: bool)
        ensures
            r == (self.spec_cursor() >= self.spec_tokens().len()),
    {
        self.cursor >= self.tokens.len()
    }

    /// Consumes the next token into the open nodes.
    pub fn token(&mut self)
        requires
            old(self).wf(),
            old(self).spec_cursor() < old(self).spec_tokens().len(),
        ensures
            final(self).wf(),
            final(self).spec_cursor() == old(self).spec_cursor() + 1,
            final(self).spec_tokens() == old(self).spec_tokens(),
            final(self).spec_open() == old(self).spec_open(),
            final(self).spec_nodes() == old(self).spec_nodes(),
    {
        let _count = self.tokens.len();
        self.cursor = self.cursor + 1;
    }

    /// Closes the innermost open node after the tokens consumed so far, keeping the
    /// kind it was opened with, marked in error when `error` holds; `false` when no
    /// node is open.
    pub fn finish_node(&mut self, error: bool) -> (r: bool)
        requires
            old(self).wf(),
        ensures
            final(self).wf(),
            r == (old(self).spec_open().len() > 0),
            final(self).spec_tokens() == old(self).spec_tokens(),
            final(self).spec_cursor() == old(self).spec_cursor(),
            final(self).spec_len() == old(self).spec_len(),
            r ==> final(self).spec_open() == old(self).spec_open().drop_last(),
            !r ==> final(self).spec_open() == old(self).spec_open(),
            !r ==> final(self).spec_nodes() == old(self).spec_nodes(),
            r ==> final(self).spec_nodes() == old(self).spec_nodes().update(
                old(self).spec_open().last(),
                final(self).spec_nodes()[old(self).spec_open().last()],
            ),
            r ==> ({
                let s = old(self).spec_open().last() as int;
                &&& final(self).spec_kind(s) == old(self).spec_kind(s)
                &&& final(self).spec_first(s) == old(self).spec_first(s)
                &&& final(self).spec_end(s) == old(self).spec_len()
                &&& final(self).spec_last(s) == old(self).spec_cursor()
                &&& final(self).spec_error(s) == error
                &&& final(self).spec_first(s) <= final(self).spec_last(s)
            }),
    {
        let count = self.open.len();
        if count == 0 {
            return false;
        }
        let kind = self.nodes[self.open[count - 1]].kind;
        self.finish_node_as(kind, error)
    }

    /// Closes the innermost open node as a node of `kind` after the tokens consumed
    /// so far, marked in error when `error` holds; `false` when no node is open.
    pub fn finish_node_as(&mut self, kind: SyntaxKind, error: bool) -> (r: bool)
        requires
            old(self).wf(),
        ensures
            final(self).wf(),
            r == (old(self).spec_open().len() > 0),
            final(self).spec_tokens() == old(self).spec_tokens(),
            final(self).spec_cursor() == old(self).spec_cursor(),
            final(self).spec_len() == old(self).spec_len(),
            r ==> final(self).spec_open() == old(self).spec_open().drop_last(),
            !r ==> final(self).spec_open() == old(self).spec_open(),
            !r ==> final(self).spec_nodes() == old(self).spec_nodes(),
            r ==> final(self).spec_nodes() == old(self).spec_nodes().update(
                old(self).spec_open().last(),
                final(self).spec_nodes()[old(self).spec_open().last()],
            ),
            r ==> ({
                let s = old(self).spec_open().last() as int;
                &&& final(self).spec_kind(s) == kind
                &&& final(self).spec_first(s) == old(self).spec_first(s)
                &&& final(self).spec_end(s) == old(self).spec_len()
                &&& final(self).spec_last(s) == old(self).spec_cursor()
                &&& final(self).spec_error(s) == error
                &&& final(self).spec_first(s) <= final(self).spec_last(s)
            }),
    {
        let count = self.open.len();
        if count == 0 {
            return false;
        }
        let s = self.open[count - 1];
        let n = self.nodes.len();
        let ghost old_nodes = self.nodes@;
        let ghost old_open = self.open@;
        let data = self.nodes[s];
        proof {
            assert forall|j: int| s < j < n implies old_nodes[j].end != 0 by {
                if old_nodes[j].end == 0 {
                    let k = choose|k: int| 0 <= k < old_open.len() && old_open[k] == j as usize;
                    assert(old_open[k] < old_open[count - 1] || k == count - 1);
                }
            }
        }
        self.open.pop();
        self.nodes.set(s, NodeInfo { kind, end: n, first: data.first, last: self.cursor, error });
        proof {
            assert(self.open@ =~= old_open.drop_last());
            assert(self.open@.map_values(|k: usize| k as int) =~= old_open.map_values(|k: usize| k as int).drop_last());
            assert forall|i: int|
                0 <= i < n && #[trigger] self.nodes@[i].end == 0 implies self.open@.contains(
                i as usize,
            ) by {
                assert(i != s);
                assert(old_nodes[i].end == 0);
                let k = choose|k: int| 0 <= k < old_open.len() && old_open[k] == i as usize;
                if k == count - 1 {
                    assert(false);
                }
                assert(self.open@[k] == i as usize);
            }
            assert forall|i: int, j: int|
                0 <= i < j < n && self.nodes@[i].end != 0 && j < #[trigger] self.nodes@[i].end
                    implies (#[trigger] self.nodes@[j].end) != 0 && nests(
                self.nodes@[i].end as int,
                self.nodes@[i].first as int,
                self.nodes@[i].last as int,
                self.nodes@[j].end as int,
                self.nodes@[j].first as int,
                self.nodes@[j].last as int,
            ) by {
                if i == s {
                    assert(old_nodes[j].end != 0);
                    assert(old_open[count - 1] < j < n);
                } else if j == s {
                    assert(old_nodes[i].end != 0);
                    assert(old_nodes[j].end == 0);
                    assert(false);
                } else {
                    assert(old_nodes[i].end != 0);
                }
            }
        }
        true
    }

    /// Whether node `c` is a finished child of the innermost open node: every node
    /// between that open node and `c` ends no later than `c`.
    pub open spec fn spec_child_of_innermost(&self, c: int) -> bool {
        &&& self.spec_open().len() > 0
        &&& self.spec_open().last() < c < self.spec_len()
        &&& self.spec_end(c) != 0
        &&& forall|i: int| self.spec_open().last() < i < c ==> #[trigger] self.spec_end(i) <= c
    }

    /// Whether node `c` is a finished child of the innermost open node.
    pub fn child_of_innermost(&self, c: usize) -> (r: bool)
        requires
            self.wf(),
        ensures
            r == self.spec_child_of_innermost(c as int),
    {
        let count = self.open.len();
        if count == 0 {
            return false;
        }
        let o = self.open[count - 1];
        proof {
            assert(self.spec_open().last() == o as int);
        }
        if !(o < c && c < self.nodes.len()) {
            return false;
        }
        if self.nodes[c].end == 0 {
            return false;
        }
        let mut i = o + 1;
        while i < c
            invariant
                self.wf(),
                count == self.open@.len(),
                count > 0,
                o == self.open@[count - 1],
                self.spec_open().last() == o as int,
                o < i <= c,
                c < self.nodes@.len(),
                forall|k: int| o < k < i ==> #[trigger] self.spec_end(k) <= c,
            decreases c - i,
        {
            if self.nodes[i].end > c {
                assert(self.spec_end(i as int) > c);
                return false;
            }
            i = i + 1;
        }
        true
    }

    /// Opens a node of `kind` in front of the finished node `c`, a child of the
    /// innermost open node: the new node takes the place of `c` in pre-order and
    /// encloses `c` and every node after it.
    #[verifier::rlimit(40)]
    pub fn precede(&mut self, c: usize, kind: SyntaxKind)
        requires
            old(self).wf(),
            old(self).spec_child_of_innermost(c as int),
        ensures
            final(self).wf(),
            final(self).spec_tokens() == old(self).spec_tokens(),
            final(self).spec_cursor() == old(self).spec_cursor(),
            final(self).spec_open() == old(self).spec_open().push(c as int),
            final(self).spec_len() == old(self).spec_len() + 1,
            forall|i: int| 0 <= i < c ==> final(self).spec_nodes()[i] == old(self).spec_nodes()[i],
            final(self).spec_kind(c as int) == kind,
            final(self).spec_first(c as int) == old(self).spec_first(c as int),
            final(self).spec_end(c as int) == 0,
            final(self).spec_last(c as int) == old(self).spec_cursor(),
            !final(self).spec_error(c as int),
            forall|i: int|
                c <= i < old(self).spec_len() ==> {
                    &&& #[trigger] final(self).spec_kind(i + 1) == old(self).spec_kind(i)
                    &&& final(self).spec_end(i + 1) == old(self).spec_end(i) + 1
                    &&& final(self).spec_first(i + 1) == old(self).spec_first(i)
                    &&& final(self).spec_last(i + 1) == old(self).spec_last(i)
                    &&& final(self).spec_error(i + 1) == old(self).spec_error(i)
                },
    {
        let n = self.nodes.len();
        let data = self.nodes[c];
        let cursor = self.cursor;
        let ghost old_nodes = self.nodes@;
        let ghost old_open = self.open@;
        let ghost o = old_open.last() as int;
        proof {
            assert(self.spec_open().last() == o);
            assert(self.spec_open().len() == old_open.len());
            assert forall|i: int| o < i < c implies #[trigger] old_nodes[i].end <= c by {
                assert(self.spec_end(i) <= c);
            }
            lemma_child_facts(old_nodes, old_open, cursor as int, self.tokens@.len() as int, c as int);
        }
        self.nodes.insert(c, NodeInfo { kind, end: 0, first: data.first, last: cursor, error: false });
        let len1 = self.nodes.len();
        let mut i = c + 1;
        while i < len1
            invariant
                len1 == n + 1,
                self.open@ == old_open,
                self.cursor == cursor,
                self.tokens@ == old(self).tokens@,
                self.nodes@.len() == len1,
                c < i <= len1,
                c < n,
                forall|k: int| 0 <= k < c ==> self.nodes@[k] == old_nodes[k],
                self.nodes@[c as int] == (NodeInfo { kind, end: 0, first: data.first, last: cursor, error: false }),
                forall|k: int| c < k < i ==> #[trigger] self.nodes@[k] == (NodeInfo {
                    kind: old_nodes[k - 1].kind,
                    end: (old_nodes[k - 1].end + 1) as usize,
                    first: old_nodes[k - 1].first,
                    last: old_nodes[k - 1].last,
                    error: old_nodes[k - 1].error,
                }),
                forall|k: int| i <= k < len1 ==> #[trigger] self.nodes@[k] == old_nodes[k - 1],
                forall|k: int| c <= k < n ==> #[trigger] old_nodes[k].end != 0 && old_nodes[k].end <= n,
            decreases len1 - i,
        {
            let d = self.nodes[i];
            assert(d == old_nodes[i - 1]);
            self.nodes.set(i, NodeInfo { kind: d.kind, end: d.end + 1, first: d.first, last: d.last, error: d.error });
            i = i + 1;
        }
        self.open.push(c);
        proof {
            assert(self.open@ == old_open.push(c));
            assert(self.open@.map_values(|k: usize| k as int) =~= old_open.map_values(|k: usize| k as int).push(c as int));
            lemma_precede_arena(old_nodes, old_open, self.nodes@, cursor as int, self.tokens@.len() as int, c as int, kind);
        }
    }

    /// The tree, once every node is closed, the first node encloses the others,
    /// and it covers every token.
    pub fn finish(self) -> (r: Result<SyntaxTree, TreeError>)
        requires
            self.wf(),
        ensures
            r is Ok <==> (self.spec_open().len() == 0 && self.spec_len() > 0 && self.spec_end(0)
                == self.spec_len() && self.spec_first(0) == 0 && self.spec_last(0)
                == self.spec_tokens().len()),
            match r {
                Ok(tree) => {
                    &&& self.spec_open().len() == 0
                    &&& self.spec_len() > 0
                    &&& self.spec_end(0) == self.spec_len()
                    &&& self.spec_first(0) == 0
                    &&& self.spec_last(0) == self.spec_tokens().len()
                    &&& tree.spec_tokens() == self.spec_tokens()
                    &&& tree.spec_len() == self.spec_len()
                    &&& forall|i: int| 0 <= i < self.spec_len() ==> self.spec_end(i) != 0
                    &&& forall|i: int|
                        0 <= i < self.spec_len() ==> tree.spec_kind(i) == self.spec_kind(i)
                            && tree.spec_end(i) == self.spec_end(i) && tree.spec_first(i)
                            == self.spec_first(i) && tree.spec_last(i) == self.spec_last(i)
                            && tree.spec_error(i) == self.spec_error(i)
                },
                Err(e) => e == (if self.spec_open().len() > 0 {
                    TreeError::UnclosedNode
                } else if self.spec_len() == 0 {
                    TreeError::Empty
                } else if self.spec_end(0) != self.spec_len() {
                    TreeError::SeveralRoots
                } else {
                    TreeError::UncoveredTokens
                }),
            },
    {
        if self.open.len() > 0 {
            return Err(TreeError::UnclosedNode);
        }
        if self.nodes.len() == 0 {
            return Err(TreeError::Empty);
        }
        if self.nodes[0].end != self.nodes.len() {
            return Err(TreeError::SeveralRoots);
        }
        if self.nodes[0].first != 0 || self.nodes[0].last != self.tokens.len() {
            return Err(TreeError::UncoveredTokens);
        }
        proof {
            assert forall|i: int| 0 <= i < self.nodes@.len() implies #[trigger] self.nodes@[i].end != 0 by {
                if self.nodes@[i].end == 0 {
                    assert(self.open@.contains(i as usize));
                }
            }
        }
        let TreeBuilder { tokens, nodes, open: _, cursor: _ } = self;
        Ok(SyntaxTree { tokens, nodes })
    }
}

} // verus!
