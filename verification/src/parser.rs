//! Parse results, text edits, and the syntax views over parsed trees.

pub mod syntax;
mod grammar;

use vstd::prelude::*;
use crate::lexer::{diagnostic_spans, lemma_lexed_whitespace_blank, lemma_lossless_reconstruct, whitespace_tokens_blank, lex_with_limits, lossless, spec_lex, spec_reconstruct, token_spans, Diagnostic, Lexed, LexerLimits, Token, TokenKind};
use crate::parser::grammar::{
    diagnostics_at_tokens, first_item_read, kind_is, produce_operation_events, skip_trivia_at,
};
use crate::source::Source;
use crate::dialect::DialectRegistry;
use crate::representation::{NodeId, NodeInfo, SyntaxKind, SyntaxTree, TreeBuilder, TreeError};
use crate::source::{SourceError, TextRange};
use crate::parser::syntax::FileSyntax;

verus! {

/// Replaces the bytes of `range` with `replacement`.
#[derive(Clone, Debug)]
pub struct TextEdit {
    pub range: TextRange,
    pub replacement: Vec<u8>,
}

/// Why a set of edits cannot be applied.
#[derive(Clone, Copy, Debug, PartialEq, Eq, Structural)]
pub enum TextEditError {
    /// The range ends after the end of the text.
    OutOfBounds(TextRange),
    /// The range starts before an earlier edit ends.
    Overlapping(TextRange),
}

/// Why applying edits failed.
#[derive(Debug)]
pub enum ApplyTextEditsError {
    Edit(TextEditError),
    OutputSizeOverflow,
    Parse(ParseFileError),
}

/// Why a file could not be parsed.
#[derive(Debug)]
pub enum ParseFileError {
    Source(SourceError),
    Syntax(TreeError),
    ResourceLimit(ResourceLimitError),
}

/// A file larger than the limit it was parsed under.
#[derive(Clone, Copy, Debug, PartialEq, Eq, Structural)]
pub struct ResourceLimitError {
    pub limit: usize,
    pub actual: usize,
}

/// The size of the text after replacing, in order, `removed` bytes by `added` bytes
/// for each `(removed, added)` of `contributions`; `None` when a step underflows
/// or overflows a `usize`.
pub open spec fn edit_output_size(size: int, contributions: Seq<(usize, usize)>) -> Option<int>
    decreases contributions.len(),
{
    if contributions.len() == 0 {
        Some(size)
    } else if size - contributions[0].0 < 0 || size - contributions[0].0 + contributions[0].1
        > usize::MAX {
        None
    } else {
        edit_output_size(
            size - contributions[0].0 + contributions[0].1,
            contributions.drop_first(),
        )
    }
}

/// The size of a text after edits, checked against underflow and overflow.
pub fn checked_text_edit_output_size(original_size: usize, contributions: &[(usize, usize)]) -> (r:
    Option<usize>)
    ensures
        match r {
            Some(n) => edit_output_size(original_size as int, contributions@) == Some(n as int),
            None => edit_output_size(original_size as int, contributions@) is None,
        },
{
    let mut size = original_size;
    let mut k: usize = 0;
    assert(contributions@.subrange(0, contributions@.len() as int) =~= contributions@);
    while k < contributions.len()
        invariant
            k <= contributions@.len(),
            edit_output_size(original_size as int, contributions@) == edit_output_size(
                size as int,
                contributions@.subrange(k as int, contributions@.len() as int),
            ),
        decreases contributions@.len() - k,
    {
        let (removed, added) = contributions[k];
        let ghost rest = contributions@.subrange(k as int, contributions@.len() as int);
        assert(rest.drop_first() =~= contributions@.subrange(k + 1, contributions@.len() as int));
        assert(rest[0] == contributions@[k as int]);
        let smaller = match size.checked_sub(removed) {
            None => {
                return None;
            },
            Some(s) => s,
        };
        size = match smaller.checked_add(added) {
            None => {
                return None;
            },
            Some(s) => s,
        };
        k = k + 1;
    }
    assert(contributions@.subrange(k as int, contributions@.len() as int) =~= Seq::<(usize, usize)>::empty());
    Some(size)
}

/// The order in which edits apply: by start, then end, then place in the list.
pub open spec fn edit_before(edits: Seq<TextEdit>, a: int, b: int) -> bool {
    let ra = edits[a].range;
    let rb = edits[b].range;
    ra.spec_start() < rb.spec_start() || (ra.spec_start() == rb.spec_start() && (ra.spec_end()
        < rb.spec_end() || (ra.spec_end() == rb.spec_end() && a < b)))
}

/// `order` lists every edit once, sorted stably by start and end.
pub open spec fn stable_order(edits: Seq<TextEdit>, order: Seq<int>) -> bool {
    &&& order.len() == edits.len()
    &&& forall|k: int| 0 <= k < order.len() ==> 0 <= #[trigger] order[k] < edits.len()
    &&& forall|k1: int, k2: int|
        0 <= k1 < k2 < order.len() ==> edit_before(edits, #[trigger] order[k1], #[trigger] order[k2])
}

/// The first problem among the ordered edits from `k` on, given where the
/// previous one ended.
pub open spec fn edit_problem(len: int, edits: Seq<TextEdit>, order: Seq<int>, k: int, end: int) -> Option<TextEditError>
    decreases order.len() - k,
{
    if k < 0 || k >= order.len() {
        None
    } else {
        let r = edits[order[k]].range;
        if r.spec_end() > len {
            Some(TextEditError::OutOfBounds(r))
        } else if r.spec_start() < end {
            Some(TextEditError::Overlapping(r))
        } else {
            edit_problem(len, edits, order, k + 1, r.spec_end() as int)
        }
    }
}

/// The removed and added byte counts of the ordered edits.
pub open spec fn edit_contributions(edits: Seq<TextEdit>, order: Seq<int>) -> Seq<(usize, usize)> {
    Seq::new(
        order.len(),
        |k: int|
            (
                (edits[order[k]].range.spec_end() - edits[order[k]].range.spec_start()) as usize,
                edits[order[k]].replacement@.len() as usize,
            ),
    )
}

/// The text after applying the ordered edits from `k` on, copying the original
/// from `cursor`.
pub open spec fn spliced(original: Seq<u8>, edits: Seq<TextEdit>, order: Seq<int>, k: int, cursor: int) -> Seq<u8>
    decreases order.len() - k,
{
    if k < 0 || k >= order.len() {
        original.subrange(cursor, original.len() as int)
    } else {
        let r = edits[order[k]].range;
        original.subrange(cursor, r.spec_start() as int) + edits[order[k]].replacement@ + spliced(
            original,
            edits,
            order,
            k + 1,
            r.spec_end() as int,
        )
    }
}

/// What applying `edits` to `original` in `order` gives.
pub open spec fn edits_applied(original: Seq<u8>, edits: Seq<TextEdit>, order: Seq<int>) -> Result<Seq<u8>, ApplyTextEditsError> {
    match edit_problem(original.len() as int, edits, order, 0, 0) {
        Some(e) => Err(ApplyTextEditsError::Edit(e)),
        None => if edit_output_size(original.len() as int, edit_contributions(edits, order)) is None {
            Err(ApplyTextEditsError::OutputSizeOverflow)
        } else {
            Ok(spliced(original, edits, order, 0, 0))
        },
    }
}

/// Whether `r` is what applying the edits gives.
pub open spec fn applied_as(r: &Result<Vec<u8>, ApplyTextEditsError>, expected: Result<Seq<u8>, ApplyTextEditsError>) -> bool {
    match (r, expected) {
        (Ok(bytes), Ok(spec_bytes)) => bytes@ == spec_bytes,
        (Err(ApplyTextEditsError::Edit(e)), Err(ApplyTextEditsError::Edit(spec_e))) => *e == spec_e,
        (Err(ApplyTextEditsError::OutputSizeOverflow), Err(ApplyTextEditsError::OutputSizeOverflow)) => true,
        _ => false,
    }
}

fn edit_precedes(edits: &[TextEdit], a: usize, b: usize) -> (r: bool)
    requires
        a < edits@.len(),
        b < edits@.len(),
    ensures
        r == edit_before(edits@, a as int, b as int),
{
    let ra = edits[a].range;
    let rb = edits[b].range;
    ra.start() < rb.start() || (ra.start() == rb.start() && (ra.end() < rb.end() || (ra.end()
        == rb.end() && a < b)))
}

/// The edits' places in stable order of start and end.
fn edit_order(edits: &[TextEdit]) -> (r: Vec<usize>)
    ensures
        stable_order(edits@, r@.map_values(|k: usize| k as int)),
{
    let mut order: Vec<usize> = Vec::new();
    let mut i: usize = 0;
    while i < edits.len()
        invariant
            i <= edits@.len(),
            order@.len() == i,
            forall|k: int| 0 <= k < order@.len() ==> #[trigger] order@[k] < i,
            forall|k1: int, k2: int|
                0 <= k1 < k2 < order@.len() ==> edit_before(
                    edits@,
                    #[trigger] order@[k1] as int,
                    #[trigger] order@[k2] as int,
                ),
        decreases edits@.len() - i,
    {
        let mut pos: usize = 0;
        while pos < order.len() && edit_precedes(edits, order[pos], i)
            invariant
                pos <= order@.len(),
                i < edits@.len(),
                forall|k: int| 0 <= k < order@.len() ==> #[trigger] order@[k] < i,
                forall|k: int| 0 <= k < pos ==> edit_before(edits@, #[trigger] order@[k] as int, i as int),
            decreases order@.len() - pos,
        {
            pos = pos + 1;
        }
        let ghost before = order@;
        proof {
            assert forall|k: int| pos <= k < before.len() implies edit_before(edits@, i as int, #[trigger] before[k] as int) by {
                if pos < before.len() {
                    assert(!edit_before(edits@, before[pos as int] as int, i as int));
                    assert(before[pos as int] != i);
                    if k > pos {
                        assert(edit_before(edits@, before[pos as int] as int, before[k] as int));
                    }
                }
            }
        }
        order.insert(pos, i);
        proof {
            assert forall|k1: int, k2: int|
                0 <= k1 < k2 < order@.len() implies edit_before(
                    edits@,
                    #[trigger] order@[k1] as int,
                    #[trigger] order@[k2] as int,
                ) by {
                if k2 < pos {
                } else if k2 == pos {
                } else if k1 < pos {
                    assert(order@[k2] == before[k2 - 1]);
                    if pos < before.len() {
                        assert(edit_before(edits@, before[k1] as int, i as int));
                        assert(edit_before(edits@, i as int, before[k2 - 1] as int));
                    }
                } else if k1 == pos {
                    assert(order@[k2] == before[k2 - 1]);
                } else {
                    assert(order@[k1] == before[k1 - 1]);
                    assert(order@[k2] == before[k2 - 1]);
                }
            }
        }
        i = i + 1;
    }
    proof {
        let view = order@.map_values(|k: usize| k as int);
        assert forall|k1: int, k2: int| 0 <= k1 < k2 < view.len() implies edit_before(
            edits@,
            #[trigger] view[k1],
            #[trigger] view[k2],
        ) by {
            assert(view[k1] == order@[k1] as int);
            assert(view[k2] == order@[k2] as int);
        }
        assert forall|k: int| 0 <= k < view.len() implies 0 <= #[trigger] view[k] < edits@.len() by {
            assert(view[k] == order@[k] as int);
        }
    }
    order
}

/// Applies non-overlapping byte-range edits to `original`: each edit replaces
/// its range, and they apply in order of start and end.
pub fn apply_text_edits_to(original: &[u8], edits: &[TextEdit]) -> (r: Result<Vec<u8>, ApplyTextEditsError>)
    ensures
        exists|order: Seq<int>|
            stable_order(edits@, order) && applied_as(&r, edits_applied(original@, edits@, order)),
{
    let order = edit_order(edits);
    let ghost ord = order@.map_values(|k: usize| k as int);
    let n = order.len();
    let len = original.len();
    let mut end: usize = 0;
    let mut k: usize = 0;
    while k < n
        invariant
            n == order@.len() == ord.len(),
            stable_order(edits@, ord),
            ord == order@.map_values(|k: usize| k as int),
            len == original@.len(),
            k <= n,
            end <= len,
            edit_problem(len as int, edits@, ord, 0, 0) == edit_problem(len as int, edits@, ord, k as int, end as int),
        decreases n - k,
    {
        assert(ord[k as int] == order@[k as int] as int);
        let range = edits[order[k]].range;
        if range.end() as usize > len {
            return Err(ApplyTextEditsError::Edit(TextEditError::OutOfBounds(range)));
        }
        if (range.start() as usize) < end {
            return Err(ApplyTextEditsError::Edit(TextEditError::Overlapping(range)));
        }
        end = range.end() as usize;
        k = k + 1;
    }
    let mut contributions: Vec<(usize, usize)> = Vec::new();
    let mut k: usize = 0;
    while k < n
        invariant
            n == order@.len() == ord.len(),
            stable_order(edits@, ord),
            ord == order@.map_values(|k: usize| k as int),
            k <= n,
            contributions@ == edit_contributions(edits@, ord).subrange(0, k as int),
        decreases n - k,
    {
        assert(ord[k as int] == order@[k as int] as int);
        let edit = &edits[order[k]];
        let removed = edit.range.len() as usize;
        contributions.push((removed, edit.replacement.len()));
        k = k + 1;
        assert(contributions@ =~= edit_contributions(edits@, ord).subrange(0, k as int));
    }
    assert(edit_contributions(edits@, ord).subrange(0, n as int) =~= edit_contributions(edits@, ord));
    if checked_text_edit_output_size(len, contributions.as_slice()).is_none() {
        return Err(ApplyTextEditsError::OutputSizeOverflow);
    }
    let mut bytes: Vec<u8> = Vec::new();
    let mut cursor: usize = 0;
    let mut k: usize = 0;
    proof {
        lemma_valid_edits_ordered(len as int, edits@, ord, 0, 0);
    }
    while k < n
        invariant
            n == order@.len() == ord.len(),
            stable_order(edits@, ord),
            ord == order@.map_values(|k: usize| k as int),
            len == original@.len(),
            k <= n,
            cursor <= len,
            edit_problem(len as int, edits@, ord, k as int, cursor as int) is None,
            bytes@ + spliced(original@, edits@, ord, k as int, cursor as int) == spliced(
                original@,
                edits@,
                ord,
                0,
                0,
            ),
        decreases n - k,
    {
        assert(ord[k as int] == order@[k as int] as int);
        let edit = &edits[order[k]];
        let start = edit.range.start() as usize;
        let stop = edit.range.end() as usize;
        let ghost before = bytes@;
        let mut m = cursor;
        while m < start
            invariant
                cursor <= m <= start <= len,
                len == original@.len(),
                bytes@ == before + original@.subrange(cursor as int, m as int),
            decreases start - m,
        {
            bytes.push(original[m]);
            m = m + 1;
            assert(bytes@ =~= before + original@.subrange(cursor as int, m as int));
        }
        let ghost middle = bytes@;
        let mut m: usize = 0;
        while m < edit.replacement.len()
            invariant
                m <= edit.replacement@.len(),
                bytes@ == middle + edit.replacement@.subrange(0, m as int),
            decreases edit.replacement@.len() - m,
        {
            bytes.push(edit.replacement[m]);
            m = m + 1;
            assert(bytes@ =~= middle + edit.replacement@.subrange(0, m as int));
        }
        assert(edit.replacement@.subrange(0, m as int) =~= edit.replacement@);
        assert(bytes@ + spliced(original@, edits@, ord, k + 1, stop as int) =~= before + spliced(
            original@,
            edits@,
            ord,
            k as int,
            cursor as int,
        ));
        cursor = stop;
        k = k + 1;
    }
    let ghost before = bytes@;
    let mut m = cursor;
    while m < len
        invariant
            cursor <= m <= len,
            len == original@.len(),
            bytes@ == before + original@.subrange(cursor as int, m as int),
        decreases len - m,
    {
        bytes.push(original[m]);
        m = m + 1;
        assert(bytes@ =~= before + original@.subrange(cursor as int, m as int));
    }
    Ok(bytes)
}

/// Valid ordered edits start after the previous one ended and end within the text.
proof fn lemma_valid_edits_ordered(len: int, edits: Seq<TextEdit>, order: Seq<int>, k: int, end: int)
    requires
        edit_problem(len, edits, order, k, end) is None,
        0 <= k,
    ensures
        forall|j: int|
            k <= j < order.len() ==> edits[order[j]].range.spec_end() <= len,
    decreases order.len() - k,
{
    if k < order.len() {
        lemma_valid_edits_ordered(len, edits, order, k + 1, edits[order[k]].range.spec_end() as int);
    }
}

/// A stable order lists each edit exactly once.
proof fn lemma_stable_order_covers(edits: Seq<TextEdit>, order: Seq<int>, x: int)
    requires
        stable_order(edits, order),
        0 <= x < edits.len(),
    ensures
        order.contains(x),
{
    assert(order.no_duplicates()) by {
        assert forall|i: int, j: int| 0 <= i < order.len() && 0 <= j < order.len() && i != j implies order[i]
            != order[j] by {
            if i < j {
                assert(edit_before(edits, order[i], order[j]));
            } else {
                assert(edit_before(edits, order[j], order[i]));
            }
        }
    }
    order.unique_seq_to_set();
    vstd::set_lib::lemma_int_range(0, edits.len() as int);
    let all = vstd::set_lib::set_int_range(0, edits.len() as int);
    assert(order.to_set().subset_of(all));
    vstd::set_lib::lemma_len_subset(order.to_set(), all);
    vstd::set_lib::lemma_subset_equality(order.to_set(), all);
    assert(all.contains(x));
}

/// Two stable orders of the same edits agree on their first `k` places.
proof fn lemma_stable_orders_agree(edits: Seq<TextEdit>, o1: Seq<int>, o2: Seq<int>, k: int)
    requires
        stable_order(edits, o1),
        stable_order(edits, o2),
        0 <= k <= edits.len(),
    ensures
        forall|j: int| 0 <= j < k ==> o1[j] == o2[j],
    decreases k,
{
    if k > 0 {
        let m = k - 1;
        lemma_stable_orders_agree(edits, o1, o2, m);
        lemma_stable_order_covers(edits, o1, o2[m]);
        lemma_stable_order_covers(edits, o2, o1[m]);
        let i = choose|i: int| 0 <= i < o1.len() && o1[i] == o2[m];
        let j = choose|j: int| 0 <= j < o2.len() && o2[j] == o1[m];
        if i < m {
            assert(o1[i] == o2[i]);
            assert(edit_before(edits, o2[i], o2[m]));
        } else if i > m {
            assert(edit_before(edits, o1[m], o1[i]));
            if j < m {
                assert(o1[j] == o2[j]);
                assert(edit_before(edits, o1[j], o1[m]));
            } else if j > m {
                assert(edit_before(edits, o2[m], o2[j]));
            }
        }
    }
}

/// The edits have exactly one stable order, so applying them has exactly one
/// outcome.
pub proof fn lemma_stable_order_unique(edits: Seq<TextEdit>, o1: Seq<int>, o2: Seq<int>)
    requires
        stable_order(edits, o1),
        stable_order(edits, o2),
    ensures
        o1 == o2,
{
    lemma_stable_orders_agree(edits, o1, o2, edits.len() as int);
    assert(o1 =~= o2);
}

/// Every edit's range starts no later than it ends, as each `TextRange` does,
/// and its replacement's length fits in a `usize`, as each `Vec`'s does.
pub open spec fn edits_valid(edits: Seq<TextEdit>) -> bool {
    forall|j: int|
        0 <= j < edits.len() ==> (#[trigger] edits[j]).range.spec_start() <= edits[j].range.spec_end()
            && edits[j].replacement@.len() <= usize::MAX
}

/// Applying no edits gives the text back unchanged.
pub proof fn lemma_no_edits_keep_text(original: Seq<u8>, order: Seq<int>)
    requires
        original.len() <= usize::MAX,
        stable_order(Seq::<TextEdit>::empty(), order),
    ensures
        edits_applied(original, Seq::<TextEdit>::empty(), order) == Ok::<Seq<u8>, ApplyTextEditsError>(original),
{
    let edits = Seq::<TextEdit>::empty();
    assert(edit_contributions(edits, order) =~= Seq::<(usize, usize)>::empty());
    assert(original.subrange(0, original.len() as int) =~= original);
}

/// The ordered edits from `k` on lengthen the text copied from `cursor` by what
/// their contributions add and take away.
proof fn lemma_spliced_len(original: Seq<u8>, edits: Seq<TextEdit>, order: Seq<int>, k: int, cursor: int, size: int)
    requires
        stable_order(edits, order),
        edits_valid(edits),
        0 <= k <= order.len(),
        0 <= cursor <= original.len(),
        edit_problem(original.len() as int, edits, order, k, cursor) is None,
        edit_output_size(size, edit_contributions(edits, order).subrange(k, order.len() as int)) is Some,
    ensures
        spliced(original, edits, order, k, cursor).len() + size == edit_output_size(
            size,
            edit_contributions(edits, order).subrange(k, order.len() as int),
        )->Some_0 + (original.len() - cursor),
    decreases order.len() - k,
{
    let c = edit_contributions(edits, order);
    if k < order.len() {
        let r = edits[order[k]].range;
        let added = edits[order[k]].replacement@.len();
        assert(c.subrange(k, order.len() as int).drop_first() =~= c.subrange(k + 1, order.len() as int));
        assert(c.subrange(k, order.len() as int)[0] == c[k]);
        assert(r.spec_start() <= r.spec_end() && added <= usize::MAX);
        assert(c[k].0 == r.spec_end() - r.spec_start() && c[k].1 == added);
        lemma_spliced_len(original, edits, order, k + 1, r.spec_end() as int, size - (r.spec_end() - r.spec_start()) + added);
    } else {
        assert(c.subrange(k, order.len() as int) =~= Seq::<(usize, usize)>::empty());
    }
}

/// Two orders that pick the same edits, one by one, find the same problem.
proof fn lemma_same_picks_problem(
    len: int,
    edits: Seq<TextEdit>,
    o: Seq<int>,
    edits2: Seq<TextEdit>,
    o2: Seq<int>,
    k: int,
    end: int,
)
    requires
        o.len() == o2.len(),
        forall|j: int| 0 <= j < o.len() ==> edits[#[trigger] o[j]] == edits2[o2[j]],
    ensures
        edit_problem(len, edits, o, k, end) == edit_problem(len, edits2, o2, k, end),
        spliced_from(edits, o, edits2, o2, k),
    decreases o.len() - k,
{
    if 0 <= k < o.len() {
        assert(edits[o[k]] == edits2[o2[k]]);
        let r = edits[o[k]].range;
        lemma_same_picks_problem(len, edits, o, edits2, o2, k + 1, r.spec_end() as int);
        assert forall|original: Seq<u8>, cursor: int|
            #[trigger] spliced(original, edits, o, k, cursor) == spliced(original, edits2, o2, k, cursor) by {
            assert(spliced(original, edits, o, k + 1, r.spec_end() as int) == spliced(
                original,
                edits2,
                o2,
                k + 1,
                r.spec_end() as int,
            ));
        }
    } else {
        assert forall|original: Seq<u8>, cursor: int|
            #[trigger] spliced(original, edits, o, k, cursor) == spliced(original, edits2, o2, k, cursor) by {}
    }
}

/// From `k` on, the two orders splice in the same way from every cursor.
pub open spec fn spliced_from(edits: Seq<TextEdit>, o: Seq<int>, edits2: Seq<TextEdit>, o2: Seq<int>, k: int) -> bool {
    forall|original: Seq<u8>, cursor: int|
        #[trigger] spliced(original, edits, o, k, cursor) == spliced(original, edits2, o2, k, cursor)
}

/// Applying edits does not depend on the order in which they are listed, where
/// no two of them have the same range: `edits2` lists the edits of `edits`
/// rearranged (its `k`-th is the `perm[k]`-th, and `inv` undoes `perm`), and
/// each list applied in its own stable order gives the same outcome.
pub proof fn lemma_edit_order_irrelevant(
    original: Seq<u8>,
    edits: Seq<TextEdit>,
    edits2: Seq<TextEdit>,
    perm: Seq<int>,
    inv: Seq<int>,
    o1: Seq<int>,
    o2: Seq<int>,
)
    requires
        edits2.len() == edits.len(),
        perm.len() == edits.len(),
        inv.len() == edits.len(),
        forall|k: int|
            0 <= k < edits.len() ==> 0 <= #[trigger] perm[k] < edits.len() && inv[perm[k]] == k,
        forall|k: int| 0 <= k < edits.len() ==> 0 <= #[trigger] inv[k] < edits.len() && perm[inv[k]] == k,
        forall|k: int| 0 <= k < edits.len() ==> #[trigger] edits2[k] == edits[perm[k]],
        forall|i: int, j: int|
            0 <= i < edits.len() && 0 <= j < edits.len() && i != j ==> (#[trigger] edits[i]).range.spec_start()
                != (#[trigger] edits[j]).range.spec_start() || edits[i].range.spec_end()
                != edits[j].range.spec_end(),
        stable_order(edits, o1),
        stable_order(edits2, o2),
    ensures
        edits_applied(original, edits, o1) == edits_applied(original, edits2, o2),
{
    let n = edits.len();
    let o1p = Seq::new(n, |k: int| inv[o1[k]]);
    assert forall|k: int| 0 <= k < n implies edits2[#[trigger] o1p[k]] == edits[o1[k]] by {
        assert(0 <= o1[k] < n);
        assert(perm[inv[o1[k]]] == o1[k]);
    }
    assert forall|k1: int, k2: int| 0 <= k1 < k2 < o1p.len() implies edit_before(
        edits2,
        #[trigger] o1p[k1],
        #[trigger] o1p[k2],
    ) by {
        assert(edit_before(edits, o1[k1], o1[k2]));
        assert(edits2[o1p[k1]] == edits[o1[k1]]);
        assert(edits2[o1p[k2]] == edits[o1[k2]]);
        if o1[k1] == o1[k2] {
            assert(!edit_before(edits, o1[k1], o1[k2]));
        }
        assert(o1[k1] != o1[k2]);
    }
    assert(stable_order(edits2, o1p));
    lemma_stable_order_unique(edits2, o1p, o2);
    assert forall|j: int| 0 <= j < o1.len() implies edits[#[trigger] o1[j]] == edits2[o2[j]] by {
        assert(edits2[o1p[j]] == edits[o1[j]]);
    }
    lemma_same_picks_problem(original.len() as int, edits, o1, edits2, o2, 0, 0);
    assert(edit_contributions(edits, o1) =~= edit_contributions(edits2, o2));
}

/// Applied edits leave a text whose length is the original's, less each
/// replaced range, plus each replacement.
pub proof fn lemma_applied_length(original: Seq<u8>, edits: Seq<TextEdit>, order: Seq<int>)
    requires
        stable_order(edits, order),
        edits_valid(edits),
        edits_applied(original, edits, order) is Ok,
    ensures
        edits_applied(original, edits, order)->Ok_0.len() == edit_output_size(
            original.len() as int,
            edit_contributions(edits, order),
        )->Some_0,
{
    let c = edit_contributions(edits, order);
    assert(c.subrange(0, order.len() as int) =~= c);
    lemma_spliced_len(original, edits, order, 0, 0, original.len() as int);
}

/// A problem the parser met, and where.
#[derive(Clone, Copy, Debug, PartialEq, Eq, Structural)]
pub struct ParseDiagnostic {
    range: TextRange,
    kind: ParseDiagnosticKind,
}

#[derive(Clone, Copy, Debug, PartialEq, Eq, Structural)]
pub enum ParseDiagnosticKind {
    Syntax,
    UnknownCustomOperation,
    ProgressLimit,
    DepthLimit,
}

impl ParseDiagnostic {
    pub closed spec fn spec_range(self) -> TextRange {
        self.range
    }

    pub closed spec fn spec_kind(self) -> ParseDiagnosticKind {
        self.kind
    }

    pub fn new(range: TextRange, kind: ParseDiagnosticKind) -> (r: ParseDiagnostic)
        ensures
            r.spec_range() == range,
            r.spec_kind() == kind,
    {
        ParseDiagnostic { range, kind }
    }

    pub fn range(self) -> (r: TextRange)
        ensures
            r == self.spec_range(),
    {
        self.range
    }

    pub fn kind(self) -> (r: ParseDiagnosticKind)
        ensures
            r == self.spec_kind(),
    {
        self.kind
    }
}

/// Limits on the parser's work.
#[derive(Clone, Copy, Debug, PartialEq, Eq, Structural)]
pub struct ParserLimits {
    pub max_delimiter_depth: usize,
    pub max_payload_bytes: usize,
    pub max_numeric_literal_bytes: usize,
}

impl ParserLimits {
    pub fn default() -> (r: Self)
        ensures
            r.max_delimiter_depth == 64,
            r.max_payload_bytes == 16 * 1024 * 1024,
            r.max_numeric_literal_bytes == 4096,
    {
        ParserLimits {
            max_delimiter_depth: 64,
            max_payload_bytes: 16 * 1024 * 1024,
            max_numeric_literal_bytes: 4096,
        }
    }
}

/// Limits on the whole parse: the lexer's, the parser's, and those of later lowering.
#[derive(Clone, Copy, Debug, PartialEq, Eq, Structural)]
pub struct ParseLimits {
    pub max_file_bytes: usize,
    pub max_tokens: usize,
    pub max_delimiter_depth: usize,
    pub max_payload_bytes: usize,
    pub max_numeric_literal_bytes: usize,
    pub max_attribute_depth: usize,
    pub max_alias_expansion_depth: usize,
}

/// The default limits of a whole parse.
pub open spec fn default_parse_limits() -> ParseLimits {
    ParseLimits {
        max_file_bytes: u32::MAX as usize,
        max_tokens: usize::MAX,
        max_delimiter_depth: 64usize,
        max_payload_bytes: 16777216usize,
        max_numeric_literal_bytes: 4096usize,
        max_attribute_depth: 64usize,
        max_alias_expansion_depth: 64usize,
    }
}

impl ParseLimits {
    /// The lexer's and the parser's default limits, and a depth of 64 for attributes
    /// and alias expansion.
    pub fn default() -> (r: Self)
        ensures
            r == default_parse_limits(),
            r.max_file_bytes == u32::MAX as usize,
            r.max_tokens == usize::MAX,
            r.max_delimiter_depth == 64,
            r.max_payload_bytes == 16 * 1024 * 1024,
            r.max_numeric_literal_bytes == 4096,
            r.max_attribute_depth == 64,
            r.max_alias_expansion_depth == 64,
    {
        let lexer = LexerLimits::default();
        let parser = ParserLimits::default();
        ParseLimits {
            max_file_bytes: lexer.max_file_bytes,
            max_tokens: lexer.max_tokens,
            max_delimiter_depth: parser.max_delimiter_depth,
            max_payload_bytes: parser.max_payload_bytes,
            max_numeric_literal_bytes: parser.max_numeric_literal_bytes,
            max_attribute_depth: 64,
            max_alias_expansion_depth: 64,
        }
    }
}

/// A syntax tree and the diagnostics met building it.
#[derive(Debug)]
pub struct ParsedSyntax {
    tree: SyntaxTree,
    diagnostics: Vec<ParseDiagnostic>,
}

impl ParsedSyntax {
    pub closed spec fn spec_tree(&self) -> &SyntaxTree {
        &self.tree
    }

    pub closed spec fn spec_diagnostics(&self) -> Seq<ParseDiagnostic> {
        self.diagnostics@
    }

    pub fn new(tree: SyntaxTree, diagnostics: Vec<ParseDiagnostic>) -> (r: ParsedSyntax)
        ensures
            *r.spec_tree() == tree,
            r.spec_diagnostics() == diagnostics@,
    {
        ParsedSyntax { tree, diagnostics }
    }

    pub fn tree(&self) -> (r: &SyntaxTree)
        ensures
            r == self.spec_tree(),
    {
        &self.tree
    }

    pub fn diagnostics(&self) -> (r: &[ParseDiagnostic])
        ensures
            r@ == self.spec_diagnostics(),
    {
        self.diagnostics.as_slice()
    }

    pub fn file(&self) -> (r: FileSyntax<'_>)
        ensures
            r.spec_tree() == self.spec_tree(),
    {
        FileSyntax::new(&self.tree)
    }
}

/// `p` is a parse of the token tape `toks`: its tree keeps every token, its root is
/// a `File` node, and each of its diagnostics covers a token of the tape.
pub open spec fn parsed_from(p: &ParsedSyntax, toks: Seq<Token>) -> bool {
    &&& p.spec_tree().spec_tokens() == toks
    &&& p.spec_tree().spec_len() > 0
    &&& p.spec_tree().spec_kind(0) == SyntaxKind::File
    &&& diagnostics_at_tokens(p.spec_diagnostics(), toks)
}

/// The first top-level item of a parsed tree, read with `reg` as
/// [`first_item_read`] says: a quoted mnemonic gives an error-free generic
/// operation; a bare mnemonic that `reg` gives no syntax gives an unparsed
/// custom operation in error.
pub open spec fn first_item_parsed(p: &ParsedSyntax, src: Seq<u8>, reg: DialectRegistry) -> bool {
    let t = p.spec_tree();
    first_item_read(
        t.spec_len(),
        t.spec_kind(1),
        t.spec_error(1),
        t.spec_first(1),
        p.spec_diagnostics(),
        t.spec_tokens(),
        src,
        reg,
    )
}

/// The first top-level item of a tree parsed with no custom syntax: a quoted
/// mnemonic gives an error-free generic operation; a bare mnemonic gives an
/// unparsed custom operation in error, reported first as an unknown custom
/// operation at that mnemonic.
pub open spec fn first_item_plain(p: &ParsedSyntax) -> bool {
    let t = p.spec_tree();
    let toks = t.spec_tokens();
    let p0 = skip_trivia_at(toks, 0);
    &&& kind_is(toks, p0, TokenKind::String) ==> t.spec_len() > 1 && t.spec_kind(1) == SyntaxKind::Operation
        && !t.spec_error(1) && t.spec_first(1) == p0
    &&& kind_is(toks, p0, TokenKind::BareIdentifier) ==> t.spec_len() > 1 && t.spec_kind(1)
        == SyntaxKind::UnparsedCustomOperation && t.spec_error(1) && t.spec_first(1) == p0
        && p.spec_diagnostics().len() > 0 && p.spec_diagnostics()[0].spec_kind()
        == ParseDiagnosticKind::UnknownCustomOperation && p.spec_diagnostics()[0].spec_range()
        == toks[p0].spec_range()
}

/// Builds the lossless syntax tree of the operations of a token tape, reading the
/// spelling of words from `source`, the bytes that were lexed, and parsing the
/// operations that `registry` describes in their registered syntax. Malformed
/// syntax becomes error nodes and diagnostics; the tree is always built.
pub fn parse_operations_with_registry(
    lexed: &Lexed,
    source: &[u8],
    registry: &DialectRegistry,
    limits: ParserLimits,
) -> (r: Result<ParsedSyntax, TreeError>)
    ensures
        r matches Ok(p) && parsed_from(&p, lexed.spec_tokens()),
        r matches Ok(p) ==> first_item_parsed(&p, source@, *registry),
{
    let tokens = lexed.tokens();
    let (builder, diagnostics) = produce_operation_events(tokens, source, registry, limits);
    match builder.finish() {
        Ok(tree) => Ok(ParsedSyntax::new(tree, diagnostics)),
        Err(e) => Err(e),
    }
}

/// Builds the lossless syntax tree of the generic operations of a token tape, with
/// the default parser limits. Malformed syntax becomes error nodes and
/// diagnostics; the tree is always built.
pub fn parse_generic_operations(lexed: &Lexed) -> (r: Result<ParsedSyntax, TreeError>)
    ensures
        r matches Ok(p) && parsed_from(&p, lexed.spec_tokens()),
        r matches Ok(p) ==> first_item_plain(&p),
{
    parse_generic_operations_with_limits(lexed, ParserLimits::default())
}

/// Builds the lossless syntax tree of the generic operations of a token tape
/// under explicit parser limits.
pub fn parse_generic_operations_with_limits(lexed: &Lexed, limits: ParserLimits) -> (r: Result<
    ParsedSyntax,
    TreeError,
>)
    ensures
        r matches Ok(p) && parsed_from(&p, lexed.spec_tokens()),
        r matches Ok(p) ==> first_item_plain(&p),
{
    let empty: Vec<u8> = Vec::new();
    let registry = DialectRegistry::empty();
    let r = parse_operations_with_registry(lexed, empty.as_slice(), &registry, limits);
    proof {
        match &r {
            Ok(p) => lemma_plain_first_item(p, empty@, registry),
            Err(_) => {},
        }
    }
    r
}

/// An owning parse: the source, what the lexer reported, the syntax, and the
/// depth limits for later lowering.
#[derive(Debug)]
pub struct ParsedFile {
    source: Source,
    lexer_diagnostics: Vec<Diagnostic>,
    syntax: ParsedSyntax,
    max_attribute_depth: usize,
    max_alias_expansion_depth: usize,
}

/// What parsing `bytes` under `limits` gives: the size limit's error, the
/// addressing error, or a file over exactly these bytes whose tokens and lexer
/// diagnostics are those of the lexer, whose syntax is a parse of those tokens,
/// and which keeps the depth limits.
pub open spec fn parses_as(bytes: Seq<u8>, limits: ParseLimits, r: &Result<ParsedFile, ParseFileError>) -> bool {
    match r {
        Err(ParseFileError::ResourceLimit(e)) => bytes.len() > limits.max_file_bytes && e == (
        ResourceLimitError { limit: limits.max_file_bytes, actual: bytes.len() as usize }),
        Err(ParseFileError::Source(e)) => bytes.len() <= limits.max_file_bytes && bytes.len()
            > u32::MAX && e == (SourceError::TooLarge { len: bytes.len() as usize }),
        Err(ParseFileError::Syntax(_)) => false,
        Ok(file) => {
            &&& bytes.len() <= limits.max_file_bytes
            &&& bytes.len() <= u32::MAX
            &&& file.spec_bytes() == bytes
            &&& lossless(file.spec_syntax().spec_tree().spec_tokens(), bytes.len() as int)
            &&& token_spans(file.spec_syntax().spec_tree().spec_tokens()) == spec_lex(
                bytes,
                limits.max_file_bytes as int,
                limits.max_tokens as int,
            ).0
            &&& diagnostic_spans(file.spec_lexer_diagnostics()) == spec_lex(
                bytes,
                limits.max_file_bytes as int,
                limits.max_tokens as int,
            ).1
            &&& parsed_from(file.spec_syntax(), file.spec_syntax().spec_tree().spec_tokens())
            &&& file.spec_max_attribute_depth() == limits.max_attribute_depth
            &&& file.spec_max_alias_expansion_depth() == limits.max_alias_expansion_depth
        },
    }
}

/// What applying `edits` and parsing the result gives, against the expected
/// outcome of applying the edits alone.
pub open spec fn reparsed_as(r: &Result<ParsedFile, ApplyTextEditsError>, expected: Result<Seq<u8>, ApplyTextEditsError>) -> bool {
    match expected {
        Ok(bytes) => match r {
            Ok(file) => parses_as(bytes, default_parse_limits(), &Ok(*file)),
            Err(ApplyTextEditsError::Parse(e)) => parses_as(bytes, default_parse_limits(), &Err(*e)),
            _ => false,
        },
        Err(ApplyTextEditsError::Edit(e)) => r matches Err(ApplyTextEditsError::Edit(found)) && found == e,
        Err(ApplyTextEditsError::OutputSizeOverflow) => r matches Err(ApplyTextEditsError::OutputSizeOverflow),
        Err(ApplyTextEditsError::Parse(_)) => false,
    }
}

/// With a registry that describes nothing, every bare mnemonic is unparsed.
proof fn lemma_plain_first_item(p: &ParsedSyntax, src: Seq<u8>, registry: DialectRegistry)
    requires
        registry.spec_operations().len() == 0,
        registry.spec_shapes() is None,
        !registry.spec_module_alias(),
        first_item_parsed(p, src, registry),
    ensures
        first_item_plain(p),
{
    let t = p.spec_tree();
    let p0 = skip_trivia_at(t.spec_tokens(), 0);
    let name = crate::parser::grammar::token_text(t.spec_tokens(), src, p0);
    assert(crate::dialect::find_operation(registry.spec_operations(), name, 0) is None);
    assert(!crate::parser::grammar::has_custom_syntax(registry, name));
}

impl ParsedFile {
    pub closed spec fn spec_bytes(&self) -> Seq<u8> {
        self.source.spec_bytes()
    }

    /// The tokens of the syntax tree tile the source bytes, and its whitespace
    /// tokens hold whitespace only.
    #[verifier::type_invariant]
    pub open spec fn tokens_tile_source(&self) -> bool {
        &&& lossless(self.spec_syntax().spec_tree().spec_tokens(), self.spec_bytes().len() as int)
        &&& whitespace_tokens_blank(self.spec_syntax().spec_tree().spec_tokens(), self.spec_bytes())
    }

    pub closed spec fn spec_source(&self) -> &Source {
        &self.source
    }

    pub closed spec fn spec_lexer_diagnostics(&self) -> Seq<Diagnostic> {
        self.lexer_diagnostics@
    }

    pub closed spec fn spec_syntax(&self) -> &ParsedSyntax {
        &self.syntax
    }

    pub closed spec fn spec_max_attribute_depth(&self) -> usize {
        self.max_attribute_depth
    }

    pub closed spec fn spec_max_alias_expansion_depth(&self) -> usize {
        self.max_alias_expansion_depth
    }

    /// Parses and owns `bytes` under the default limits and no custom syntax.
    pub fn parse(bytes: Vec<u8>) -> (r: Result<ParsedFile, ParseFileError>)
        ensures
            parses_as(bytes@, default_parse_limits(), &r),
            r matches Ok(file) ==> first_item_plain(file.spec_syntax()),
    {
        let registry = DialectRegistry::empty();
        let r = ParsedFile::parse_with_limits_and_registry(bytes, ParseLimits::default(), &registry);
        proof {
            match &r {
                Ok(file) => lemma_plain_first_item(file.spec_syntax(), bytes@, registry),
                Err(_) => {},
            }
        }
        r
    }

    /// Parses and owns `bytes` under `limits` and no custom syntax.
    pub fn parse_with_limits(bytes: Vec<u8>, limits: ParseLimits) -> (r: Result<ParsedFile, ParseFileError>)
        ensures
            parses_as(bytes@, limits, &r),
            r matches Ok(file) ==> first_item_plain(file.spec_syntax()),
    {
        let registry = DialectRegistry::empty();
        let r = ParsedFile::parse_with_limits_and_registry(bytes, limits, &registry);
        proof {
            match &r {
                Ok(file) => lemma_plain_first_item(file.spec_syntax(), bytes@, registry),
                Err(_) => {},
            }
        }
        r
    }

    /// Parses and owns `bytes` under the default limits, with the custom syntax
    /// that `registry` describes.
    pub fn parse_with_registry(bytes: Vec<u8>, registry: &DialectRegistry) -> (r: Result<ParsedFile, ParseFileError>)
        ensures
            parses_as(bytes@, default_parse_limits(), &r),
            r matches Ok(file) ==> first_item_parsed(file.spec_syntax(), bytes@, *registry),
    {
        ParsedFile::parse_with_limits_and_registry(bytes, ParseLimits::default(), registry)
    }

    /// Parses and owns `bytes` under `limits` with the custom syntax that
    /// `registry` describes: a file over the size limit is refused before it is
    /// read.
    pub fn parse_with_limits_and_registry(
        bytes: Vec<u8>,
        limits: ParseLimits,
        registry: &DialectRegistry,
    ) -> (r: Result<ParsedFile, ParseFileError>)
        ensures
            parses_as(bytes@, limits, &r),
            r matches Ok(file) ==> first_item_parsed(file.spec_syntax(), bytes@, *registry),
    {
        if bytes.len() > limits.max_file_bytes {
            let actual = bytes.len();
            return Err(ParseFileError::ResourceLimit(ResourceLimitError { limit: limits.max_file_bytes, actual }));
        }
        let source = match Source::new(bytes) {
            Ok(source) => source,
            Err(e) => {
                return Err(ParseFileError::Source(e));
            },
        };
        let lexed = lex_with_limits(
            &source,
            LexerLimits { max_file_bytes: limits.max_file_bytes, max_tokens: limits.max_tokens },
        );
        let lexer_diagnostics = copy_diagnostics(lexed.diagnostics());
        let syntax = match parse_operations_with_registry(
            &lexed,
            source.bytes(),
            registry,
            ParserLimits {
                max_delimiter_depth: limits.max_delimiter_depth,
                max_payload_bytes: limits.max_payload_bytes,
                max_numeric_literal_bytes: limits.max_numeric_literal_bytes,
            },
        ) {
            Ok(syntax) => syntax,
            Err(e) => {
                return Err(ParseFileError::Syntax(e));
            },
        };
        proof {
            lemma_lexed_whitespace_blank(
                lexed,
                source.spec_bytes(),
                limits.max_file_bytes as int,
                limits.max_tokens as int,
            );
        }
        Ok(ParsedFile {
            source,
            lexer_diagnostics,
            syntax,
            max_attribute_depth: limits.max_attribute_depth,
            max_alias_expansion_depth: limits.max_alias_expansion_depth,
        })
    }

    pub fn source(&self) -> (r: &Source)
        ensures
            r == self.spec_source(),
    {
        &self.source
    }

    pub fn lexer_diagnostics(&self) -> (r: &[Diagnostic])
        ensures
            r@ == self.spec_lexer_diagnostics(),
    {
        self.lexer_diagnostics.as_slice()
    }

    pub fn syntax(&self) -> (r: &ParsedSyntax)
        ensures
            r == self.spec_syntax(),
    {
        &self.syntax
    }

    pub fn max_attribute_depth(&self) -> (r: usize)
        ensures
            r == self.spec_max_attribute_depth(),
    {
        self.max_attribute_depth
    }

    pub fn max_alias_expansion_depth(&self) -> (r: usize)
        ensures
            r == self.spec_max_alias_expansion_depth(),
    {
        self.max_alias_expansion_depth
    }

    /// The bytes the file was parsed from, unchanged.
    pub fn original_bytes(&self) -> (r: &[u8])
        ensures
            r@ == self.spec_bytes(),
    {
        self.source.bytes()
    }

    /// Appends the file's bytes, exactly as they were read, to `sink`.
    pub fn write_original(&self, sink: &mut Vec<u8>)
        ensures
            final(sink)@ == old(sink)@ + self.spec_bytes(),
    {
        let bytes = self.original_bytes();
        let ghost before = sink@;
        let mut k: usize = 0;
        while k < bytes.len()
            invariant
                k <= bytes@.len(),
                sink@ == before + bytes@.subrange(0, k as int),
            decreases bytes@.len() - k,
        {
            sink.push(bytes[k]);
            k = k + 1;
            proof {
                assert(sink@ =~= before + bytes@.subrange(0, k as int));
            }
        }
        proof {
            assert(bytes@.subrange(0, k as int) =~= bytes@);
        }
    }

    /// Applies non-overlapping byte-range edits and parses the whole result again,
    /// under the default limits.
    pub fn apply_text_edits(&self, edits: &[TextEdit]) -> (r: Result<ParsedFile, ApplyTextEditsError>)
        ensures
            exists|order: Seq<int>|
                stable_order(edits@, order) && reparsed_as(&r, edits_applied(self.spec_bytes(), edits@, order)),
    {
        let registry = DialectRegistry::empty();
        self.apply_text_edits_with_registry(edits, &registry)
    }

    /// Applies non-overlapping byte-range edits and parses the whole result again,
    /// under the default limits, with the custom syntax that `registry` describes.
    pub fn apply_text_edits_with_registry(&self, edits: &[TextEdit], registry: &DialectRegistry) -> (r: Result<
        ParsedFile,
        ApplyTextEditsError,
    >)
        ensures
            exists|order: Seq<int>|
                stable_order(edits@, order) && reparsed_as(&r, edits_applied(self.spec_bytes(), edits@, order)),
    {
        let applied = apply_text_edits_to(self.original_bytes(), edits);
        let ghost order = choose|order: Seq<int>|
            stable_order(edits@, order) && applied_as(&applied, edits_applied(self.spec_bytes(), edits@, order));
        match applied {
            Ok(bytes) => match ParsedFile::parse_with_registry(bytes, registry) {
                Ok(file) => Ok(file),
                Err(e) => Err(ApplyTextEditsError::Parse(e)),
            },
            Err(e) => Err(e),
        }
    }
}

/// A parsed file loses nothing: the tokens of its syntax tree, in order, spell
/// exactly the bytes it was parsed from.
pub proof fn lemma_parsed_file_lossless(bytes: Seq<u8>, limits: ParseLimits, file: ParsedFile)
    requires
        parses_as(bytes, limits, &Ok(file)),
    ensures
        spec_reconstruct(file.spec_syntax().spec_tree().spec_tokens(), bytes) == bytes,
        file.spec_bytes() == bytes,
{
    lemma_lossless_reconstruct(file.spec_syntax().spec_tree().spec_tokens(), bytes);
}

fn copy_diagnostics(ds: &[Diagnostic]) -> (r: Vec<Diagnostic>)
    ensures
        r@ == ds@,
{
    let mut v: Vec<Diagnostic> = Vec::new();
    let mut i: usize = 0;
    while i < ds.len()
        invariant
            i <= ds@.len(),
            v@ == ds@.subrange(0, i as int),
        decreases ds@.len() - i,
    {
        v.push(ds[i]);
        i = i + 1;
        assert(v@ =~= ds@.subrange(0, i as int));
    }
    assert(ds@.subrange(0, i as int) =~= ds@);
    v
}

fn copy_tokens(tokens: &[Token]) -> (r: Vec<Token>)
    ensures
        r@ == tokens@,
{
    let mut v: Vec<Token> = Vec::new();
    let mut i: usize = 0;
    while i < tokens.len()
        invariant
            i <= tokens@.len(),
            v@ == tokens@.subrange(0, i as int),
        decreases tokens@.len() - i,
    {
        v.push(tokens[i]);
        i = i + 1;
        assert(v@ =~= tokens@.subrange(0, i as int));
    }
    assert(tokens@.subrange(0, i as int) =~= tokens@);
    v
}

/// What the brace fixture makes of the node `i` of a builder over `s`: a region
/// opened by `{` and, once closed without error, ended by `}`; or an error node
/// around one unmatched `}`.
pub open spec fn brace_node(b: &TreeBuilder, s: Seq<Token>, i: int) -> bool {
    let first = b.spec_first(i);
    let last = b.spec_last(i);
    ||| b.spec_kind(i) == SyntaxKind::Region && 0 <= first < s.len() && s[first].spec_kind()
        == TokenKind::LBrace && (b.spec_end(i) != 0 && !b.spec_error(i) ==> first < last && s[last
        - 1].spec_kind() == TokenKind::RBrace) && (b.spec_error(i) ==> b.spec_end(i) != 0 && last
        == s.len())
    ||| b.spec_kind(i) == SyntaxKind::Error && b.spec_error(i) && b.spec_end(i) != 0 && last == first
        + 1 && 0 <= first < s.len() && s[first].spec_kind() == TokenKind::RBrace
}

/// The same facts about a node of a finished tree.
pub open spec fn brace_tree_node(t: &SyntaxTree, i: int) -> bool {
    let s = t.spec_tokens();
    let first = t.spec_first(i);
    let last = t.spec_last(i);
    ||| t.spec_kind(i) == SyntaxKind::Region && 0 <= first < s.len() && s[first].spec_kind()
        == TokenKind::LBrace && (!t.spec_error(i) ==> first < last && s[last - 1].spec_kind()
        == TokenKind::RBrace) && (t.spec_error(i) ==> last == s.len())
    ||| t.spec_kind(i) == SyntaxKind::Error && t.spec_error(i) && last == first + 1 && 0 <= first
        < s.len() && s[first].spec_kind() == TokenKind::RBrace
}

/// A brace tree being built: its nodes in pre-order, and which are open.
pub struct BraceBuild {
    pub nodes: Seq<NodeInfo>,
    pub open: Seq<int>,
}

/// What a builder holds, as a brace tree being built.
pub open spec fn brace_build(b: &TreeBuilder) -> BraceBuild {
    BraceBuild { nodes: b.spec_nodes(), open: b.spec_open() }
}

/// A node of `kind` opened at token `at`.
pub open spec fn brace_start(b: BraceBuild, kind: SyntaxKind, at: int) -> BraceBuild {
    BraceBuild {
        nodes: b.nodes.push(NodeInfo { kind, end: 0, first: at as usize, last: at as usize, error: false }),
        open: b.open.push(b.nodes.len() as int),
    }
}

/// The innermost open node closed before token `at`, in error when `error`.
pub open spec fn brace_finish(b: BraceBuild, at: int, error: bool) -> BraceBuild {
    let s = b.open.last();
    BraceBuild {
        nodes: b.nodes.update(
            s,
            NodeInfo { end: b.nodes.len() as usize, last: at as usize, error, ..b.nodes[s] },
        ),
        open: b.open.drop_last(),
    }
}

/// The tokens from `i` on read into `b`: a `{` opens a region, a `}` closes
/// the innermost open region or, with none open, stands alone as an error node.
pub open spec fn brace_scan(toks: Seq<Token>, i: int, b: BraceBuild) -> BraceBuild
    decreases toks.len() - i,
{
    if 0 <= i < toks.len() {
        let kind = toks[i].spec_kind();
        let next = if kind == TokenKind::LBrace {
            brace_start(b, SyntaxKind::Region, i)
        } else if kind == TokenKind::RBrace {
            if b.open.len() > 1 {
                brace_finish(b, i + 1, false)
            } else {
                brace_finish(brace_start(b, SyntaxKind::Error, i), i + 1, true)
            }
        } else {
            b
        };
        brace_scan(toks, i + 1, next)
    } else {
        b
    }
}

/// The regions still open at token `at` closed in error, innermost first.
pub open spec fn brace_close(b: BraceBuild, at: int) -> BraceBuild
    decreases b.open.len(),
{
    if b.open.len() > 1 {
        brace_close(brace_finish(b, at, true), at)
    } else {
        b
    }
}

/// The brace tree of `toks`: a file node over all of them, holding what
/// `brace_scan` reads and `brace_close` closes.
pub open spec fn brace_tree(toks: Seq<Token>) -> BraceBuild {
    let root = brace_start(BraceBuild { nodes: seq![], open: seq![] }, SyntaxKind::File, 0);
    brace_finish(brace_close(brace_scan(toks, 0, root), toks.len() as int), toks.len() as int, false)
}

/// Parses a tiny balanced-brace grammar: every `{ ... }` becomes a region, an
/// unmatched `}` an error node, and a region still open at the end is closed in
/// error; the root is a file node over all tokens.
pub fn parse_brace_fixture(lexed: &Lexed) -> (r: Result<SyntaxTree, TreeError>)
    ensures
        r matches Ok(tree) && tree.spec_tokens() == lexed.spec_tokens() && tree.spec_len() > 0
            && tree.spec_kind(0) == SyntaxKind::File && !tree.spec_error(0) && forall|i: int|
            0 < i < tree.spec_len() ==> brace_tree_node(&tree, i),
        r matches Ok(tree) && tree.spec_len() == brace_tree(lexed.spec_tokens()).nodes.len() && forall|i: int|
            0 <= i < tree.spec_len() ==> {
                let n = #[trigger] brace_tree(lexed.spec_tokens()).nodes[i];
                &&& tree.spec_kind(i) == n.kind
                &&& tree.spec_end(i) == n.end
                &&& tree.spec_first(i) == n.first
                &&& tree.spec_last(i) == n.last
                &&& tree.spec_error(i) == n.error
            },
{
    let toks = lexed.tokens();
    let tokens = copy_tokens(toks);
    let ghost s = tokens@;
    let count = tokens.len();
    let mut builder = TreeBuilder::new(tokens);
    let ghost empty = brace_build(&builder);
    builder.start_node(SyntaxKind::File);
    proof {
        assert(empty.nodes =~= Seq::<NodeInfo>::empty());
        assert(empty.open =~= Seq::<int>::empty());
        assert(brace_build(&builder) == brace_start(
            BraceBuild { nodes: seq![], open: seq![] },
            SyntaxKind::File,
            0,
        ));
    }
    let ghost scanned = brace_scan(s, 0, brace_build(&builder));
    let mut i: usize = 0;
    while i < count
        invariant
            brace_scan(s, i as int, brace_build(&builder)) == scanned,
            builder.wf(),
            builder.spec_tokens() == s,
            toks@ == s,
            count == s.len(),
            builder.spec_cursor() == i,
            i <= count,
            builder.spec_len() > 0,
            builder.spec_open().len() > 0,
            builder.spec_open()[0] == 0,
            builder.spec_kind(0) == SyntaxKind::File,
            builder.spec_first(0) == 0,
            builder.spec_end(0) == 0,
            !builder.spec_error(0),
            forall|k: int|
                0 < k < builder.spec_open().len() ==> 0 < #[trigger] builder.spec_open()[k] < builder.spec_len()
                    && builder.spec_end(builder.spec_open()[k]) == 0 && builder.spec_first(
                    builder.spec_open()[k],
                ) < builder.spec_cursor(),
            forall|j: int| 0 < j < builder.spec_len() ==> brace_node(&builder, s, j),
            forall|k1: int, k2: int|
                0 <= k1 < k2 < builder.spec_open().len() ==> #[trigger] builder.spec_open()[k1]
                    < #[trigger] builder.spec_open()[k2],
        decreases count - i,
    {
        let kind = toks[i].kind();
        let ghost b0 = builder;
        if kind == TokenKind::LBrace {
            builder.start_node(SyntaxKind::Region);
            builder.token();
            proof {
                assert forall|k: int| 0 < k < builder.spec_open().len() implies 0
                    < #[trigger] builder.spec_open()[k] < builder.spec_len() && builder.spec_end(
                    builder.spec_open()[k],
                ) == 0 && builder.spec_first(builder.spec_open()[k]) < builder.spec_cursor() by {
                    if k < b0.spec_open().len() {
                        assert(builder.spec_open()[k] == b0.spec_open()[k]);
                        assert(builder.spec_nodes()[b0.spec_open()[k]] == b0.spec_nodes()[b0.spec_open()[k]]);
                    }
                }
                assert forall|j: int| 0 < j < builder.spec_len() implies brace_node(&builder, s, j) by {
                    if j < b0.spec_len() {
                        assert(builder.spec_nodes()[j] == b0.spec_nodes()[j]);
                        assert(brace_node(&b0, s, j));
                    }
                }
            }
        } else if kind == TokenKind::RBrace {
            if builder.open_len() > 1 {
                let ghost p = b0.spec_open().last();
                assert(b0.spec_open()[b0.spec_open().len() - 1] > 0);
                builder.token();
                builder.finish_node(false);
                proof {
                    assert(brace_node(&b0, s, p));
                    assert forall|k: int| 0 < k < builder.spec_open().len() implies 0
                        < #[trigger] builder.spec_open()[k] < builder.spec_len() && builder.spec_end(
                        builder.spec_open()[k],
                    ) == 0 && builder.spec_first(builder.spec_open()[k]) < builder.spec_cursor() by {
                        assert(builder.spec_open()[k] == b0.spec_open()[k]);
                        assert(b0.spec_open()[k] < b0.spec_open()[b0.spec_open().len() - 1]);
                        assert(builder.spec_nodes()[b0.spec_open()[k]] == b0.spec_nodes()[b0.spec_open()[k]]);
                    }
                    assert forall|j: int| 0 < j < builder.spec_len() implies brace_node(&builder, s, j) by {
                        if j != p {
                            assert(builder.spec_nodes()[j] == b0.spec_nodes()[j]);
                            assert(brace_node(&b0, s, j));
                        }
                    }
                }
            } else {
                builder.start_node(SyntaxKind::Error);
                builder.token();
                builder.finish_node(true);
                proof {
                    assert forall|k: int| 0 < k < builder.spec_open().len() implies 0
                        < #[trigger] builder.spec_open()[k] < builder.spec_len() && builder.spec_end(
                        builder.spec_open()[k],
                    ) == 0 && builder.spec_first(builder.spec_open()[k]) < builder.spec_cursor() by {
                    }
                    assert forall|j: int| 0 < j < builder.spec_len() implies brace_node(&builder, s, j) by {
                        if j < b0.spec_len() {
                            assert(builder.spec_nodes()[j] == b0.spec_nodes()[j]);
                            assert(brace_node(&b0, s, j));
                        }
                    }
                }
            }
        } else {
            builder.token();
            proof {
                assert forall|j: int| 0 < j < builder.spec_len() implies brace_node(&builder, s, j) by {
                    assert(brace_node(&b0, s, j));
                }
            }
        }
        i = i + 1;
    }
    let ghost closed = brace_close(brace_build(&builder), count as int);
    while builder.open_len() > 1
        invariant
            brace_close(brace_build(&builder), count as int) == closed,
            builder.wf(),
            builder.spec_tokens() == s,
            count == s.len(),
            builder.spec_cursor() == count,
            builder.spec_len() > 0,
            builder.spec_open().len() > 0,
            builder.spec_open()[0] == 0,
            builder.spec_kind(0) == SyntaxKind::File,
            builder.spec_first(0) == 0,
            builder.spec_end(0) == 0,
            !builder.spec_error(0),
            forall|k: int|
                0 < k < builder.spec_open().len() ==> 0 < #[trigger] builder.spec_open()[k] < builder.spec_len()
                    && builder.spec_end(builder.spec_open()[k]) == 0 && builder.spec_first(
                    builder.spec_open()[k],
                ) < builder.spec_cursor(),
            forall|j: int| 0 < j < builder.spec_len() ==> brace_node(&builder, s, j),
            forall|k1: int, k2: int|
                0 <= k1 < k2 < builder.spec_open().len() ==> #[trigger] builder.spec_open()[k1]
                    < #[trigger] builder.spec_open()[k2],
        decreases builder.spec_open().len(),
    {
        let ghost b0 = builder;
        let ghost p = b0.spec_open().last();
        assert(b0.spec_open()[b0.spec_open().len() - 1] > 0);
        builder.finish_node(true);
        proof {
            assert(brace_node(&b0, s, p));
            assert forall|k: int| 0 < k < builder.spec_open().len() implies 0
                < #[trigger] builder.spec_open()[k] < builder.spec_len() && builder.spec_end(
                builder.spec_open()[k],
            ) == 0 && builder.spec_first(builder.spec_open()[k]) < builder.spec_cursor() by {
                assert(builder.spec_open()[k] == b0.spec_open()[k]);
                assert(b0.spec_open()[k] < b0.spec_open()[b0.spec_open().len() - 1]);
                assert(builder.spec_nodes()[b0.spec_open()[k]] == b0.spec_nodes()[b0.spec_open()[k]]);
            }
            assert forall|j: int| 0 < j < builder.spec_len() implies brace_node(&builder, s, j) by {
                if j != p {
                    assert(builder.spec_nodes()[j] == b0.spec_nodes()[j]);
                    assert(brace_node(&b0, s, j));
                }
            }
        }
    }
    let ghost b0 = builder;
    builder.finish_node(false);
    proof {
        assert(b0.spec_open().len() == 1);
        assert(b0.spec_open().last() == 0);
        assert forall|j: int| 0 < j < builder.spec_len() implies brace_node(&builder, s, j) by {
            assert(builder.spec_nodes()[j] == b0.spec_nodes()[j]);
            assert(brace_node(&b0, s, j));
        }
    }
    let ghost b1 = builder;
    let r = builder.finish();
    proof {
        match &r {
            Ok(tree) => {
                assert forall|i: int| 0 < i < tree.spec_len() implies brace_tree_node(&tree, i) by {
                    assert(brace_node(&b1, s, i));
                    assert(b1.spec_end(i) != 0);
                }
            },
            Err(_) => {},
        }
    }
    r
}

} // verus!
