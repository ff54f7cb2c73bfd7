//! What holds of every buffer, whichever table it is.
use vstd::prelude::*;

use crate::buffer::TextBuffer;
use crate::compact::CompactPieceTable;
use crate::laws::edits::{puts_in, takes_out};
use crate::laws::reading::element;
use crate::piece::Piece;
use crate::stats::Stats;
use crate::table::PieceTable;
use crate::tree::BNode;

verus! {

/// The elements of a table are those that its operations read and change.
pub proof fn law_tables_are_buffers<T: Clone + PartialEq>(
    table: PieceTable<T>,
    compact: CompactPieceTable<T>,
)
    ensures
        table.content() == table@,
        compact.content() == compact@,
        table.valid() == table.wf(),
        compact.valid() == compact.wf(),
{
}

/// A buffer that puts elements in has clones of them where they are to be, with the others moved
/// behind them.
pub proof fn law_buffer_insert<T: Clone + PartialEq, B: TextBuffer<T>>(
    buffer: &mut B,
    pos: usize,
    data: &[T],
)
    requires
        pos <= old(buffer).content().len(),
        call_ensures(<B as TextBuffer<T>>::insert, (buffer, pos, data), ()),
    ensures
        final(buffer).valid(),
        puts_in(old(buffer).content(), pos as int, data@, final(buffer).content()),
{
    let before = old(buffer).content();
    let after = final(buffer).content();
    let n = data@.len() as int;
    assert forall|i: int| 0 <= i < pos implies #[trigger] after[i] == before[i] by {
        assert(after.take(pos as int)[i] == before.take(pos as int)[i]);
    }
    assert forall|i: int| pos <= i < before.len() implies after[i + n] == #[trigger] before[i] by {
        assert(after.skip(pos + n)[i - pos] == before.skip(pos as int)[i - pos]);
    }
}

/// A buffer that takes elements out has the others, in order.
pub proof fn law_buffer_delete<T: Clone + PartialEq, B: TextBuffer<T>>(
    buffer: &mut B,
    pos: usize,
    len: usize,
)
    requires
        pos + len <= old(buffer).content().len(),
        call_ensures(<B as TextBuffer<T>>::delete, (buffer, pos, len), ()),
    ensures
        final(buffer).valid(),
        takes_out(old(buffer).content(), pos as int, len as int, final(buffer).content()),
{
}

/// A buffer gives an element at each position before its length, and none after it.
pub proof fn law_buffer_reads<'a, T: Clone + PartialEq, B: TextBuffer<T>>(
    buffer: &'a B,
    len: usize,
    empty: bool,
    index: usize,
    got: Option<&'a T>,
    checked: Result<(), String>,
)
    requires
        call_ensures(<B as TextBuffer<T>>::len, (buffer,), len),
        call_ensures(<B as TextBuffer<T>>::is_empty, (buffer,), empty),
        call_ensures(<B as TextBuffer<T>>::get, (buffer, index), got),
        call_ensures(<B as TextBuffer<T>>::validate, (buffer,), checked),
    ensures
        len == buffer.content().len(),
        empty == (len == 0),
        got == element::<T>(buffer.content(), index as int),
        buffer.valid() ==> checked is Ok,
{
}

/// A table shows its tree as it is.
pub proof fn law_root_is_shown<'a, T: Clone + PartialEq>(
    table: &'a PieceTable<T>,
    root: Option<&'a BNode>,
)
    requires
        call_ensures(PieceTable::<T>::root, (table,), root),
    ensures
        root is Some <==> table.tree() is Some,
        root matches Some(n) ==> table.tree() matches Some(t) && *n == *t,
{
}

/// A default table has counted nothing, and its checks are off.
pub proof fn law_defaults_are_blank<T: Default + Clone + PartialEq>(
    blank: Stats,
    table: PieceTable<T>,
    counts: Stats,
    checks: bool,
)
    requires
        call_ensures(<Stats as Default>::default, (), blank),
        call_ensures(<PieceTable<T> as Default>::default, (), table),
        call_ensures(PieceTable::<T>::stats, (&table,), counts),
        call_ensures(PieceTable::<T>::debug_checks_enabled, (&table,), checks),
    ensures
        blank.split_calls == 0,
        blank.merge_calls == 0,
        blank.inserts == 0,
        blank.deletes == 0,
        blank.coalesces == 0,
        counts == blank,
        !checks,
        table.tree() is None,
{
    crate::document::lemma_tree_marks(table.tree());
}

/// A piece is as long as the end of it is behind its start.
pub proof fn law_piece_length(piece: Piece, len: usize)
    requires
        piece.start <= piece.end,
        call_ensures(Piece::len, (&piece,), len),
    ensures
        piece.start + len == piece.end,
{
}

} // verus!
