//! What editing a document does.
use vstd::prelude::*;

use crate::compact::CompactPieceTable;
use crate::document::lemma_tree_marks;
use crate::laws::reading::{continues_at, lemma_heads_break};
use crate::piece::{BufferKind, Mark};
use crate::stats::{lemma_counted_wraps, Stats};
use crate::table::PieceTable;
use crate::tree::{BNode, Tree};

verus! {

/// A counter that read `before` and counted `n` events reads `after`: it wraps around.
pub open spec fn counts_on(before: usize, n: int, after: usize) -> bool {
    after == (before + n) % (usize::MAX + 1)
}

/// One if `b` holds, else none.
pub open spec fn once(b: bool) -> int {
    if b {
        1
    } else {
        0
    }
}

/// How many nodes there are at and below this one.
pub open spec fn nodes_in(n: BNode) -> nat
    decreases n,
{
    match n {
        BNode::Leaf { .. } => 1,
        BNode::Internal { children, .. } => 1 + nodes_in_all(children@),
    }
}

pub open spec fn nodes_in_all(s: Seq<Box<BNode>>) -> nat
    decreases s,
{
    if s.len() == 0 {
        0
    } else {
        nodes_in_all(s.drop_last()) + nodes_in(*s.last())
    }
}

/// How many nodes the tree has.
pub open spec fn nodes_of(t: Tree) -> nat {
    match t {
        Some(n) => nodes_in(*n),
        None => 0,
    }
}

proof fn lemma_nodes_in(n: BNode)
    ensures
        nodes_in(n) == n.size(),
    decreases n,
{
    match n {
        BNode::Leaf { .. } => {},
        BNode::Internal { children, .. } => {
            lemma_nodes_in_all(children@);
        },
    }
}

proof fn lemma_nodes_in_all(s: Seq<Box<BNode>>)
    ensures
        nodes_in_all(s) == crate::tree::size_all(s),
    decreases s,
{
    if s.len() > 0 {
        lemma_nodes_in_all(s.drop_last());
        lemma_nodes_in(*s.last());
    }
}

pub(crate) proof fn lemma_nodes_of<T>(table: PieceTable<T>)
    ensures
        nodes_of(table.tree()) == table.nodes(),
{
    if let Some(n) = table.tree() {
        lemma_nodes_in(*n);
    }
}

/// Where element `k` is held: in which buffer, and where in it.
pub open spec fn source(m: Seq<Mark>, k: int) -> (BufferKind, int) {
    (m[k].buffer, m[k].at)
}

/// `after` is `before` with clones of the elements of `data` before position `pos`: those in front
/// of it are where they were, and those behind it are as much further on as `data` is long.
pub open spec fn puts_in<T: Clone>(
    before: Seq<T>,
    pos: int,
    data: Seq<T>,
    after: Seq<T>,
) -> bool {
    &&& after.len() == before.len() + data.len()
    &&& forall|i: int| 0 <= i < pos ==> #[trigger] after[i] == before[i]
    &&& forall|i: int| 0 <= i < data.len() ==> cloned(#[trigger] data[i], after[pos + i])
    &&& forall|i: int| pos <= i < before.len() ==> after[i + data.len()] == #[trigger] before[i]
}

/// `after` is `before` without the `len` elements from position `pos` on: those in front of them
/// are where they were, and those behind them are `len` positions nearer.
pub open spec fn takes_out<T>(before: Seq<T>, pos: int, len: int, after: Seq<T>) -> bool {
    &&& after.len() == before.len() - len
    &&& forall|i: int| 0 <= i < pos ==> #[trigger] after[i] == before[i]
    &&& forall|i: int| pos + len <= i < before.len() ==> after[i - len] == #[trigger] before[i]
}

/// The elements that are put in are held by the add buffer, right after those that it held before,
/// and all others are held where they were.
pub open spec fn puts_sources_in(
    before: Seq<Mark>,
    pos: int,
    held: int,
    len: int,
    after: Seq<Mark>,
) -> bool {
    &&& after.len() == before.len() + len
    &&& forall|k: int| 0 <= k < pos ==> #[trigger] source(after, k) == source(before, k)
    &&& forall|k: int|
        pos <= k < pos + len ==> #[trigger] source(after, k) == (BufferKind::Add, held + (k - pos))
    &&& forall|k: int|
        pos + len <= k < after.len() ==> #[trigger] source(after, k) == source(before, k - len)
}

/// The elements that are left are held where they were.
pub open spec fn takes_sources_out(
    before: Seq<Mark>,
    pos: int,
    len: int,
    after: Seq<Mark>,
) -> bool {
    &&& after.len() == before.len() - len
    &&& forall|k: int| 0 <= k < pos ==> #[trigger] source(after, k) == source(before, k)
    &&& forall|k: int|
        pos <= k < after.len() ==> #[trigger] source(after, k) == source(before, k + len)
}

/// An insertion puts clones of the elements in where it is to, moves those behind them, and
/// changes no other; what it puts in is held by the add buffer. An empty one changes nothing.
pub proof fn law_insert<T: Clone + PartialEq>(table: &mut PieceTable<T>, pos: usize, data: &[T])
    requires
        pos <= old(table)@.len(),
        call_ensures(PieceTable::<T>::insert, (table, pos, data), ()),
    ensures
        puts_in(old(table)@, pos as int, data@, final(table)@),
        data@.len() == 0 ==> *final(table) == *old(table),
        data@.len() > 0 ==> puts_sources_in(
            old(table).marks(),
            pos as int,
            old(table).added() as int,
            data@.len() as int,
            final(table).marks(),
        ),
        final(table).added() == old(table).added() + data@.len(),
        final(table).original_len() == old(table).original_len(),
        final(table).checks() == old(table).checks(),
{
    let (a, b) = (old(table)@, final(table)@);
    let p = pos as int;
    let n = data@.len() as int;
    assert forall|i: int| 0 <= i < p implies #[trigger] b[i] == a[i] by {
        assert(b.take(p)[i] == a.take(p)[i]);
    }
    assert forall|i: int| 0 <= i < n implies cloned(#[trigger] data@[i], b[p + i]) by {}
    assert forall|i: int| p <= i < a.len() implies b[i + n] == #[trigger] a[i] by {
        assert(b.skip(p + n)[i - p] == a.skip(p)[i - p]);
    }
}

/// As [`law_insert`], for a compact table.
pub proof fn law_compact_insert<T: Clone + PartialEq>(
    table: &mut CompactPieceTable<T>,
    pos: usize,
    data: &[T],
)
    requires
        pos <= old(table)@.len(),
        call_ensures(CompactPieceTable::<T>::insert, (table, pos, data), ()),
    ensures
        puts_in(old(table)@, pos as int, data@, final(table)@),
        data@.len() == 0 ==> *final(table) == *old(table),
        data@.len() > 0 ==> puts_sources_in(
            old(table).marks(),
            pos as int,
            old(table).added() as int,
            data@.len() as int,
            final(table).marks(),
        ),
        final(table).added() == old(table).added() + data@.len(),
{
    let (a, b) = (old(table)@, final(table)@);
    let p = pos as int;
    let n = data@.len() as int;
    assert forall|i: int| 0 <= i < p implies #[trigger] b[i] == a[i] by {
        assert(b.take(p)[i] == a.take(p)[i]);
    }
    assert forall|i: int| 0 <= i < n implies cloned(#[trigger] data@[i], b[p + i]) by {}
    assert forall|i: int| p <= i < a.len() implies b[i + n] == #[trigger] a[i] by {
        assert(b.skip(p + n)[i - p] == a.skip(p)[i - p]);
    }
}

/// A deletion takes the elements out that it is to, moves those behind them, and changes no other;
/// what is left is held where it was. An empty one changes nothing.
pub proof fn law_delete<T: Clone + PartialEq>(table: &mut PieceTable<T>, pos: usize, len: usize)
    requires
        pos + len <= old(table)@.len(),
        call_ensures(PieceTable::<T>::delete, (table, pos, len), ()),
    ensures
        takes_out(old(table)@, pos as int, len as int, final(table)@),
        len == 0 ==> *final(table) == *old(table),
        len > 0 ==> takes_sources_out(
            old(table).marks(),
            pos as int,
            len as int,
            final(table).marks(),
        ),
        final(table).added() == old(table).added(),
        final(table).original_len() == old(table).original_len(),
        final(table).checks() == old(table).checks(),
{
    if len > 0 {
        lemma_cut_sources(
            old(table).marks(),
            pos as int,
            len as int,
            final(table).marks(),
        );
    }
}

/// As [`law_delete`], for a compact table.
pub proof fn law_compact_delete<T: Clone + PartialEq>(
    table: &mut CompactPieceTable<T>,
    pos: usize,
    len: usize,
)
    requires
        pos + len <= old(table)@.len(),
        call_ensures(CompactPieceTable::<T>::delete, (table, pos, len), ()),
    ensures
        takes_out(old(table)@, pos as int, len as int, final(table)@),
        len == 0 ==> *final(table) == *old(table),
        len > 0 ==> takes_sources_out(
            old(table).marks(),
            pos as int,
            len as int,
            final(table).marks(),
        ),
        final(table).added() == old(table).added(),
{
    if len > 0 {
        lemma_cut_sources(
            old(table).marks(),
            pos as int,
            len as int,
            final(table).marks(),
        );
    }
}

proof fn lemma_cut_sources(m: Seq<Mark>, pos: int, len: int, n: Seq<Mark>)
    requires
        0 <= pos,
        0 <= len,
        pos + len <= m.len(),
        crate::piece::fused(crate::piece::cut(m, pos, len), n),
    ensures
        takes_sources_out(m, pos, len, n),
{
    let c = crate::piece::cut(m, pos, len);
    assert forall|k: int| 0 <= k < pos implies #[trigger] source(n, k) == source(m, k) by {
        assert(c[k] == m[k]);
    }
    assert forall|k: int| pos <= k < n.len() implies #[trigger] source(n, k) == source(
        m,
        k + len,
    ) by {
        assert(m.skip(pos + len)[k - pos] == m[k + len]);
        assert(c[k].buffer == m[k + len].buffer && c[k].at == m[k + len].at);
    }
}

/// What is read after an insertion: what was read before it in front of it, the clones, and what
/// was read before it behind it.
pub proof fn law_insert_reads_back<'a, T: Clone + PartialEq>(
    table: &mut PieceTable<T>,
    pos: usize,
    data: &[T],
    index: usize,
    before: Option<&'a T>,
    moved: usize,
    after: Option<&'a T>,
)
    requires
        pos <= old(table)@.len(),
        call_ensures(PieceTable::<T>::get, (old(table), index), before),
        call_ensures(PieceTable::<T>::insert, (table, pos, data), ()),
        moved == (if index < pos {
            index as int
        } else {
            index + data@.len()
        }),
        call_ensures(PieceTable::<T>::get, (final(table), moved), after),
    ensures
        after == before,
{
    law_insert(table, pos, data);
}

/// To delete what was just inserted gives the document back.
pub proof fn law_delete_takes_back_insert<T: Clone + PartialEq>(
    table: &mut PieceTable<T>,
    pos: usize,
    data: &[T],
    next: &mut PieceTable<T>,
    len: usize,
)
    requires
        pos <= old(table)@.len(),
        call_ensures(PieceTable::<T>::insert, (table, pos, data), ()),
        *old(next) == *final(table),
        len == data@.len(),
        call_ensures(PieceTable::<T>::delete, (next, pos, len), ()),
    ensures
        final(next)@ == old(table)@,
{
    law_insert(table, pos, data);
    law_delete(next, pos, len);
    let (a, b, c) = (old(table)@, final(table)@, final(next)@);
    assert forall|i: int| 0 <= i < a.len() implies c[i] == a[i] by {
        if i >= pos {
            assert(b[i + len] == a[i]);
            assert(c[i + len - len] == b[i + len]);
        } else {
            assert(b[i] == a[i]);
        }
    }
    assert(c =~= a);
}

/// Tables pass their checks, before and after edits.
pub proof fn law_edited_tables_are_valid<T: Clone + PartialEq>(
    table: &mut PieceTable<T>,
    pos: usize,
    len: usize,
    data: &[T],
    compact: &mut CompactPieceTable<T>,
    verdicts: (Result<(), String>, Result<(), String>),
)
    requires
        call_ensures(PieceTable::<T>::insert, (table, pos, data), ()) || call_ensures(
            PieceTable::<T>::delete,
            (table, pos, len),
            (),
        ),
        call_ensures(CompactPieceTable::<T>::insert, (compact, pos, data), ()) || call_ensures(
            CompactPieceTable::<T>::delete,
            (compact, pos, len),
            (),
        ),
        call_ensures(PieceTable::<T>::validate, (final(table),), verdicts.0),
        call_ensures(CompactPieceTable::<T>::validate, (final(compact),), verdicts.1),
    ensures
        verdicts.0 is Ok,
        verdicts.1 is Ok,
{
}

/// An insertion that is not empty is counted once. It counts a split if elements that came one
/// after the other in a buffer are parted, and one for each node that it makes, except the first
/// of an empty document. It counts nothing else.
pub proof fn law_insert_is_counted<T: Clone + PartialEq>(
    table: &mut PieceTable<T>,
    pos: usize,
    data: &[T],
    before: Stats,
    after: Stats,
)
    requires
        old(table).wf(),
        pos <= old(table)@.len(),
        data@.len() > 0,
        call_ensures(PieceTable::<T>::stats, (old(table),), before),
        call_ensures(PieceTable::<T>::insert, (table, pos, data), ()),
        call_ensures(PieceTable::<T>::stats, (final(table),), after),
    ensures
        counts_on(before.inserts, 1, after.inserts),
        after.deletes == before.deletes,
        after.merge_calls == before.merge_calls,
        after.coalesces == before.coalesces,
        counts_on(
            before.split_calls,
            once(continues_at(*old(table), pos as int)) + (if old(table)@.len() == 0 {
                0
            } else {
                nodes_of(final(table).tree()) - nodes_of(old(table).tree())
            }),
            after.split_calls,
        ),
        old(table)@.len() == 0 ==> nodes_of(final(table).tree()) == 1,
{
    lemma_nodes_of(*old(table));
    lemma_nodes_of(*final(table));
    lemma_tree_marks(old(table).tree());
    if pos < old(table).marks().len() {
        lemma_heads_break(*old(table), pos as int);
    }
    let cut = once(continues_at(*old(table), pos as int));
    assert(cut == crate::list::one_if(old(table).splits(pos as int)));
    lemma_counted_wraps(before.inserts, 1, after.inserts);
    lemma_counted_wraps(
        before.split_calls,
        cut + (if old(table)@.len() == 0 {
            0
        } else {
            final(table).nodes() - old(table).nodes()
        }),
        after.split_calls,
    );
}

/// The elements on either side of the range from `pos` on come one after the other in a buffer.
pub open spec fn meets_over<T>(table: PieceTable<T>, pos: int, len: int) -> bool {
    let m = table.marks();
    &&& 0 < pos
    &&& pos + len < m.len()
    &&& m[pos + len].buffer == m[pos - 1].buffer
    &&& m[pos + len].at == m[pos - 1].at + 1
}

/// A deletion that is not empty is counted once. It counts a split for each end at which elements
/// that came one after the other in a buffer are parted, and one for each node that it makes; a
/// coalesce if the elements that it brings together come one after the other in a buffer; and a
/// merge for that and for each node that it merges.
pub proof fn law_delete_is_counted<T: Clone + PartialEq>(
    table: &mut PieceTable<T>,
    pos: usize,
    len: usize,
    before: Stats,
    after: Stats,
)
    requires
        old(table).wf(),
        pos + len <= old(table)@.len(),
        len > 0,
        call_ensures(PieceTable::<T>::stats, (old(table),), before),
        call_ensures(PieceTable::<T>::delete, (table, pos, len), ()),
        call_ensures(PieceTable::<T>::stats, (final(table),), after),
    ensures
        counts_on(before.deletes, 1, after.deletes),
        after.inserts == before.inserts,
        counts_on(
            before.coalesces,
            once(meets_over(*old(table), pos as int, len as int)),
            after.coalesces,
        ),
        counts_on(
            before.merge_calls,
            once(meets_over(*old(table), pos as int, len as int)) + (final(table).nodes_merged()
                - old(table).nodes_merged()),
            after.merge_calls,
        ),
        counts_on(
            before.split_calls,
            once(continues_at(*old(table), pos as int)) + once(
                continues_at(*old(table), pos + len),
            ) + (final(table).nodes_made() - old(table).nodes_made()),
            after.split_calls,
        ),
        final(table).nodes_made() >= old(table).nodes_made(),
        final(table).nodes_merged() >= old(table).nodes_merged(),
        nodes_of(final(table).tree()) + (final(table).nodes_merged() - old(table).nodes_merged())
            <= nodes_of(old(table).tree()) + (final(table).nodes_made() - old(
            table,
        ).nodes_made()),
{
    let this = *old(table);
    let m = this.marks();
    let (p, n) = (pos as int, len as int);
    lemma_nodes_of(*old(table));
    lemma_nodes_of(*final(table));
    lemma_tree_marks(this.tree());
    if p < m.len() {
        lemma_heads_break(this, p);
    }
    if p + n < m.len() {
        lemma_heads_break(this, p + n);
    }
    let cuts = once(continues_at(this, p)) + once(continues_at(this, p + n));
    assert(this.meets(p, n) == meets_over(this, p, n)) by {
        let c = crate::piece::cut(m, p, n);
        if 0 < p && p + n < m.len() {
            assert(c[p - 1] == m[p - 1]);
            assert(m.skip(p + n)[0] == m[p + n]);
            assert(c[p].buffer == m[p + n].buffer && c[p].at == m[p + n].at);
        }
    }
    let joint = once(meets_over(this, p, n));
    lemma_counted_wraps(before.deletes, 1, after.deletes);
    lemma_counted_wraps(before.coalesces, joint, after.coalesces);
    lemma_counted_wraps(
        before.merge_calls,
        joint + (final(table).nodes_merged() - this.nodes_merged()),
        after.merge_calls,
    );
    lemma_counted_wraps(
        before.split_calls,
        cuts + (final(table).nodes_made() - this.nodes_made()),
        after.split_calls,
    );
}

/// The counters of a new table, and those that were reset, are all zero; nothing else changes when
/// they are reset.
pub proof fn law_counters_start_at_zero<T: Clone + PartialEq>(
    initial: Vec<T>,
    fresh: PieceTable<T>,
    table: &mut PieceTable<T>,
    counts: (Stats, Stats),
)
    requires
        call_ensures(PieceTable::<T>::new, (initial,), fresh),
        call_ensures(PieceTable::<T>::stats, (&fresh,), counts.0),
        call_ensures(PieceTable::<T>::reset_stats, (table,), ()),
        call_ensures(PieceTable::<T>::stats, (final(table),), counts.1),
    ensures
        counts.0 == counts.1,
        counts.1.split_calls == 0,
        counts.1.merge_calls == 0,
        counts.1.inserts == 0,
        counts.1.deletes == 0,
        counts.1.coalesces == 0,
        final(table)@ == old(table)@,
        final(table).tree() == old(table).tree(),
        final(table).checks() == old(table).checks(),
{
}

/// Whether checks are on is what was set last, and nothing else changes when it is set.
pub proof fn law_checks_are_as_set<T: Clone + PartialEq>(
    table: &mut PieceTable<T>,
    enabled: bool,
    shown: bool,
)
    requires
        call_ensures(PieceTable::<T>::set_debug_checks_enabled, (table, enabled), ()),
        call_ensures(PieceTable::<T>::debug_checks_enabled, (final(table),), shown),
    ensures
        shown == enabled,
        final(table)@ == old(table)@,
        final(table).tree() == old(table).tree(),
        final(table).counts() == old(table).counts(),
{
}

/// Making room changes nothing that is read.
pub proof fn law_reserving_changes_no_content<T: Clone + PartialEq>(
    table: &mut PieceTable<T>,
    additional: usize,
    next: &mut PieceTable<T>,
    ops: usize,
    len: usize,
)
    requires
        call_ensures(PieceTable::<T>::reserve_additional, (table, additional), ()),
        *old(next) == *final(table),
        call_ensures(PieceTable::<T>::reserve_for_edits, (next, ops, len), ()),
    ensures
        final(next)@ == old(table)@,
        final(next).tree() == old(table).tree(),
        final(next).counts() == old(table).counts(),
        final(next).checks() == old(table).checks(),
        final(next).added() == old(table).added(),
{
}

} // verus!
