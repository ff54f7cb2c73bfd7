//! What reading a document gives.
use vstd::prelude::*;
use vstd::std_specs::iter::IteratorSpec;

use crate::compact::CompactPieceTable;
use crate::compact_iter::{CompactIter, CompactRangeIter};
use crate::document::lemma_tree_marks;
use crate::iter::{Cursor, Iter, RangeIter};
use crate::piece::joined;
use crate::table::PieceTable;

verus! {

/// The element of `s` at `i`, if there is one.
pub open spec fn element<'a, T>(s: Seq<T>, i: int) -> Option<&'a T> {
    if 0 <= i < s.len() {
        Some(&s[i])
    } else {
        None
    }
}

/// A new table holds the elements that it was made of: there are as many, and each is read at its
/// place.
pub proof fn law_new_table_reads_back<'a, T: Clone + PartialEq>(
    initial: Vec<T>,
    table: &'a PieceTable<T>,
    len: usize,
    empty: bool,
    index: usize,
    got: Option<&'a T>,
)
    requires
        call_ensures(PieceTable::<T>::new, (initial,), *table),
        call_ensures(PieceTable::<T>::len, (table,), len),
        call_ensures(PieceTable::<T>::is_empty, (table,), empty),
        call_ensures(PieceTable::<T>::get, (table, index), got),
    ensures
        len == initial@.len(),
        empty == (initial@.len() == 0),
        got == element::<T>(initial@, index as int),
{
}

/// As [`law_new_table_reads_back`], for a compact table.
pub proof fn law_new_compact_table_reads_back<'a, T: Clone + PartialEq>(
    initial: Vec<T>,
    table: &'a CompactPieceTable<T>,
    len: usize,
    empty: bool,
    index: usize,
    got: Option<&'a T>,
)
    requires
        call_ensures(CompactPieceTable::<T>::new, (initial,), *table),
        call_ensures(CompactPieceTable::<T>::len, (table,), len),
        call_ensures(CompactPieceTable::<T>::is_empty, (table,), empty),
        call_ensures(CompactPieceTable::<T>::get, (table, index), got),
    ensures
        len == initial@.len(),
        empty == (initial@.len() == 0),
        got == element::<T>(initial@, index as int),
{
}

/// A default table is empty.
pub proof fn law_default_tables_are_empty<T: Default + Clone + PartialEq>(
    table: PieceTable<T>,
    len: usize,
    compact: CompactPieceTable<T>,
    compact_len: usize,
)
    requires
        call_ensures(<PieceTable<T> as Default>::default, (), table),
        call_ensures(PieceTable::<T>::len, (&table,), len),
        call_ensures(<CompactPieceTable<T> as Default>::default, (), compact),
        call_ensures(CompactPieceTable::<T>::len, (&compact,), compact_len),
    ensures
        len == 0,
        compact_len == 0,
        table@.len() == 0,
        compact@.len() == 0,
{
}

/// All ways to read a table agree. There is an element at each position before the length, and
/// none after it; iterating gives these elements, in order; and iterating over a range gives those
/// from its start up to its end.
pub proof fn law_reads_agree<'a, T: Clone + PartialEq>(
    table: &'a PieceTable<T>,
    len: usize,
    empty: bool,
    index: usize,
    got: Option<&'a T>,
    items: Iter<'a, T>,
    start: usize,
    end: usize,
    part: RangeIter<'a, T>,
)
    requires
        call_ensures(PieceTable::<T>::len, (table,), len),
        call_ensures(PieceTable::<T>::is_empty, (table,), empty),
        call_ensures(PieceTable::<T>::get, (table, index), got),
        call_ensures(PieceTable::<T>::iter, (table,), items),
        start <= end <= len,
        call_ensures(PieceTable::<T>::range, (table, start, end), part),
    ensures
        len == table@.len(),
        empty == (len == 0),
        got is Some <==> index < len,
        got == element::<T>(table@, index as int),
        items.obeys_prophetic_iter_laws(),
        items.remaining().len() == len,
        got matches Some(x) ==> items.remaining()[index as int] == x,
        part.obeys_prophetic_iter_laws(),
        part.remaining().len() == end - start,
        forall|k: int|
            0 <= k < end - start ==> #[trigger] part.remaining()[k] == items.remaining()[start + k],
{
}

/// As [`law_reads_agree`], for a compact table.
pub proof fn law_compact_reads_agree<'a, T: Clone + PartialEq>(
    table: &'a CompactPieceTable<T>,
    len: usize,
    empty: bool,
    index: usize,
    got: Option<&'a T>,
    items: CompactIter<'a, T>,
    start: usize,
    end: usize,
    part: CompactRangeIter<'a, T>,
)
    requires
        call_ensures(CompactPieceTable::<T>::len, (table,), len),
        call_ensures(CompactPieceTable::<T>::is_empty, (table,), empty),
        call_ensures(CompactPieceTable::<T>::get, (table, index), got),
        call_ensures(CompactPieceTable::<T>::iter, (table,), items),
        start <= end <= len,
        call_ensures(CompactPieceTable::<T>::range, (table, start, end), part),
    ensures
        len == table@.len(),
        empty == (len == 0),
        got is Some <==> index < len,
        got == element::<T>(table@, index as int),
        items.obeys_prophetic_iter_laws(),
        items.remaining().len() == len,
        got matches Some(x) ==> items.remaining()[index as int] == x,
        part.obeys_prophetic_iter_laws(),
        part.remaining().len() == end - start,
        forall|k: int|
            0 <= k < end - start ==> #[trigger] part.remaining()[k] == items.remaining()[start + k],
{
}

/// A cursor at a position gives the element that is read there.
pub proof fn law_cursor_gives_its_element<'a, T: Clone + PartialEq>(
    table: &'a PieceTable<T>,
    pos: usize,
    c: Cursor<'a, T>,
    shown: Option<&'a T>,
)
    requires
        call_ensures(PieceTable::<T>::cursor, (table, pos), c),
        call_ensures(Cursor::<'a, T>::get, (&c,), shown),
    ensures
        shown == element::<T>(table@, pos as int),
        c.table() == table,
        c.attached() <==> pos < table@.len(),
        pos < table@.len() ==> c.at() == pos,
        pos >= table@.len() ==> c.at() == table@.len() && c.piece() == (0int, 0int),
{
}

/// A step forward from an element that is not the last gives the next, on which the cursor then
/// is. A step forward from the last element, or from the end, gives nothing, and leaves the cursor
/// at the end, where it shows nothing. A cursor that shows nothing goes on to show nothing until
/// it leaves the piece that it was on last, and then shows the element at its position.
pub proof fn law_cursor_next<'a, T: Clone + PartialEq>(
    c: &mut Cursor<'a, T>,
    r: Option<&'a T>,
    shown: Option<&'a T>,
)
    requires
        old(c).at() >= 0,
        call_ensures(Cursor::<'a, T>::next, (c,), r),
        call_ensures(Cursor::<'a, T>::get, (final(c),), shown),
    ensures
        final(c).table() == old(c).table(),
        shown == r,
        final(c).attached() <==> r is Some,
        ({
            let t = old(c).table()@;
            let i = old(c).at();
            &&& i + 1 >= t.len() ==> r is None && final(c).at() == t.len()
            &&& i + 1 < t.len() ==> final(c).at() == i + 1
            &&& i + 1 < t.len() && (old(c).attached() || i + 1 >= old(c).piece().1) ==> r == Some(
                &t[i + 1],
            )
            &&& i + 1 < t.len() && !old(c).attached() && i + 1 < old(c).piece().1 ==> r is None
            &&& i + 1 >= t.len() || i + 1 < old(c).piece().1 ==> final(c).piece() == old(c).piece()
        }),
{
}

/// A step back from an element that is not the first gives the one before, on which the cursor
/// then is. A step back from the first position gives nothing, and leaves the cursor as it was. A
/// cursor that shows nothing goes on to show nothing until it leaves the piece that it was on
/// last, and then shows the element at its position.
pub proof fn law_cursor_prev<'a, T: Clone + PartialEq>(
    c: &mut Cursor<'a, T>,
    r: Option<&'a T>,
    before: Option<&'a T>,
    shown: Option<&'a T>,
)
    requires
        0 <= old(c).at() <= old(c).table()@.len(),
        call_ensures(Cursor::<'a, T>::get, (old(c),), before),
        call_ensures(Cursor::<'a, T>::prev, (c,), r),
        call_ensures(Cursor::<'a, T>::get, (final(c),), shown),
    ensures
        final(c).table() == old(c).table(),
        old(c).at() == 0 ==> {
            &&& r is None
            &&& shown == before
            &&& final(c).at() == 0
            &&& final(c).attached() == old(c).attached()
            &&& final(c).piece() == old(c).piece()
        },
        old(c).at() > 0 ==> {
            let t = old(c).table()@;
            let i = old(c).at();
            &&& shown == r
            &&& final(c).attached() <==> r is Some
            &&& final(c).at() == i - 1
            &&& old(c).attached() || i - 1 < old(c).piece().0 ==> r == Some(&t[i - 1])
            &&& !old(c).attached() && i - 1 >= old(c).piece().0 ==> r is None
            &&& i - 1 >= old(c).piece().0 ==> final(c).piece() == old(c).piece()
        },
{
}

/// A step back at the first element changes nothing that a step forward shows: it gives the second
/// element, if there is one, with the step back before it as without.
pub proof fn law_cursor_step_back_at_the_start<'a, T: Clone + PartialEq>(
    c: &mut Cursor<'a, T>,
    nothing: Option<&'a T>,
    d: &mut Cursor<'a, T>,
    r: Option<&'a T>,
)
    requires
        old(c).at() == 0,
        old(c).attached(),
        call_ensures(Cursor::<'a, T>::prev, (c,), nothing),
        *old(d) == *final(c),
        call_ensures(Cursor::<'a, T>::next, (d,), r),
    ensures
        nothing is None,
        r == element::<T>(old(c).table()@, 1),
{
}

/// A step forward and a step back lead from an element that is not the last to the element itself,
/// and a step back and a step forward do from one that is not the first.
pub proof fn law_cursor_steps_undo_each_other<'a, T: Clone + PartialEq>(
    c: &mut Cursor<'a, T>,
    first: Option<&'a T>,
    d: &mut Cursor<'a, T>,
    second: Option<&'a T>,
)
    requires
        old(c).attached(),
        0 <= old(c).at() < old(c).table()@.len(),
        *old(d) == *final(c),
        ({
            ||| {
                &&& old(c).at() + 1 < old(c).table()@.len()
                &&& call_ensures(Cursor::<'a, T>::next, (c,), first)
                &&& call_ensures(Cursor::<'a, T>::prev, (d,), second)
            }
            ||| {
                &&& old(c).at() > 0
                &&& call_ensures(Cursor::<'a, T>::prev, (c,), first)
                &&& call_ensures(Cursor::<'a, T>::next, (d,), second)
            }
        }),
    ensures
        first is Some,
        second == Some(&old(c).table()@[old(c).at()]),
        final(d).at() == old(c).at(),
        final(d).attached(),
{
}

/// Element `k` of a document comes right after the one before it in the buffer that holds both.
pub open spec fn continues_at<T>(table: PieceTable<T>, k: int) -> bool {
    &&& 0 < k < table.marks().len()
    &&& table.marks()[k].buffer == table.marks()[k - 1].buffer
    &&& table.marks()[k].at == table.marks()[k - 1].at + 1
}

/// The positions from `lo` up to `hi` are those of one piece, among them `pos`: the elements there
/// come one after the other in one buffer, and those on either side do not.
pub open spec fn piece_around<T>(table: PieceTable<T>, lo: int, hi: int, pos: int) -> bool {
    &&& 0 <= lo <= pos < hi <= table@.len()
    &&& forall|k: int| lo < k < hi ==> #[trigger] continues_at(table, k)
    &&& !continues_at(table, lo)
    &&& !continues_at(table, hi)
}

pub(crate) proof fn lemma_heads_break<T>(table: PieceTable<T>, k: int)
    requires
        table.wf(),
        0 <= k < table.marks().len(),
    ensures
        table.marks()[k].head <==> !continues_at(table, k),
        table.marks().len() == table@.len(),
{
    lemma_tree_marks(table.root);
    assert(continues_at(table, k) == joined(table.marks(), k));
}

proof fn lemma_piece_around<T>(table: PieceTable<T>, lo: int, hi: int, pos: int)
    requires
        table.wf(),
        table.covers(lo, hi, pos),
    ensures
        piece_around(table, lo, hi, pos),
{
    let m = table.marks();
    assert forall|k: int| lo < k < hi implies #[trigger] continues_at(table, k) by {
        lemma_heads_break(table, k);
    }
    lemma_heads_break(table, lo);
    if hi < m.len() {
        lemma_heads_break(table, hi);
    }
}

/// A cursor at a position knows the piece around it.
pub proof fn law_cursor_knows_its_piece<'a, T: Clone + PartialEq>(
    table: &'a PieceTable<T>,
    pos: usize,
    c: Cursor<'a, T>,
)
    requires
        table.wf(),
        pos < table@.len(),
        call_ensures(PieceTable::<T>::cursor, (table, pos), c),
    ensures
        piece_around(*table, c.piece().0, c.piece().1, pos as int),
{
    lemma_piece_around(*table, c.piece().0, c.piece().1, pos as int);
}

/// A cursor that steps out of the piece that it was on knows the piece around its new position.
pub proof fn law_cursor_steps_between_pieces<'a, T: Clone + PartialEq>(
    c: &mut Cursor<'a, T>,
    r: Option<&'a T>,
    back: bool,
)
    requires
        old(c).table().wf(),
        0 <= old(c).at(),
        back ==> {
            &&& 0 < old(c).at() <= old(c).piece().0
            &&& call_ensures(Cursor::<'a, T>::prev, (c,), r)
        },
        !back ==> {
            &&& old(c).piece().1 <= old(c).at() + 1 < old(c).table()@.len()
            &&& call_ensures(Cursor::<'a, T>::next, (c,), r)
        },
    ensures
        piece_around(
            *old(c).table(),
            final(c).piece().0,
            final(c).piece().1,
            final(c).at(),
        ),
{
    lemma_piece_around(
        *old(c).table(),
        final(c).piece().0,
        final(c).piece().1,
        final(c).at(),
    );
}

} // verus!
