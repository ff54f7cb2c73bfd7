//! What holds of the library as a whole.
use vstd::prelude::*;
use vstd::std_specs::iter::IteratorSpec;

use crate::balance::fits;
use crate::buffer::TextBuffer;
use crate::compact::CompactPieceTable;
use crate::compact_iter::CompactIter;
use crate::content::{clones_are_alike, clones_are_equal, inserted, removed};
use crate::document::branches;
use crate::iter::{refs, Cursor, Iter};
use crate::list::one_if;
use crate::search::{all_hits, answers, matches_at, Relation};
use crate::stats::{counted, lemma_counted_few, lemma_counted_none, lemma_counted_trans, Stats};
use crate::table::PieceTable;
use crate::tree::lemma_leaves;

pub mod buffers;
pub mod checking;
pub mod edits;
pub mod growth;
pub mod reading;
pub mod reports;
pub mod searching;
pub mod shape;
pub mod text;

verus! {

/// Clones of bytes are equal.
pub proof fn law_bytes_clone_equal()
    ensures
        clones_are_equal::<u8>(),
{
}

/// Clones of characters are equal.
pub proof fn law_chars_clone_equal()
    ensures
        clones_are_equal::<char>(),
{
}

/// Where clones are equal, an insertion puts in the elements themselves.
pub proof fn law_insert_is_exact<T: Clone>(before: Seq<T>, pos: int, data: Seq<T>, after: Seq<T>)
    requires
        0 <= pos <= before.len(),
        inserted(before, pos, data, after),
        clones_are_equal::<T>(),
    ensures
        after == before.take(pos) + data + before.skip(pos),
{
    let expected = before.take(pos) + data + before.skip(pos);
    assert forall|i: int| 0 <= i < after.len() implies after[i] == expected[i] by {
        if i < pos {
            assert(after.take(pos)[i] == before.take(pos)[i]);
        } else if i < pos + data.len() {
            assert(cloned(data[i - pos], after[pos + (i - pos)]));
        } else {
            let j = i - (pos + data.len());
            assert(after.skip(pos + data.len())[j] == before.skip(pos)[j]);
        }
    }
    assert(after =~= expected);
}

/// An insertion moves the elements after it, and changes none that was there.
pub proof fn law_insert_keeps_elements<T: Clone>(
    before: Seq<T>,
    pos: int,
    data: Seq<T>,
    after: Seq<T>,
    i: int,
)
    requires
        0 <= pos <= before.len(),
        inserted(before, pos, data, after),
        0 <= i < before.len(),
    ensures
        i < pos ==> after[i] == before[i],
        i >= pos ==> after[i + data.len()] == before[i],
{
    if i < pos {
        assert(after.take(pos)[i] == before.take(pos)[i]);
    } else {
        assert(after.skip(pos + data.len())[i - pos] == before.skip(pos)[i - pos]);
    }
}

/// A deletion undoes an insertion.
pub proof fn law_delete_undoes_insert<T: Clone>(
    before: Seq<T>,
    pos: int,
    data: Seq<T>,
    after: Seq<T>,
)
    requires
        0 <= pos <= before.len(),
        inserted(before, pos, data, after),
    ensures
        removed(after, pos, data.len() as int) == before,
{
    assert(before =~= before.take(pos) + before.skip(pos));
}

/// Where clones are equal, to insert again what was deleted undoes a deletion.
pub proof fn law_insert_undoes_delete<T: Clone>(
    before: Seq<T>,
    pos: int,
    len: int,
    after: Seq<T>,
)
    requires
        0 <= pos,
        0 <= len,
        pos + len <= before.len(),
        inserted(removed(before, pos, len), pos, before.subrange(pos, pos + len), after),
        clones_are_equal::<T>(),
    ensures
        after == before,
{
    let rest = removed(before, pos, len);
    law_insert_is_exact(rest, pos, before.subrange(pos, pos + len), after);
    assert(rest.take(pos) =~= before.take(pos));
    assert(rest.skip(pos) =~= before.skip(pos + len));
    assert(after =~= before);
}

/// A deletion moves the elements after those that it takes out, and changes none.
pub proof fn law_delete_keeps_elements<T>(before: Seq<T>, pos: int, len: int, i: int)
    requires
        0 <= pos,
        0 <= len,
        pos + len <= before.len(),
        0 <= i < before.len(),
    ensures
        removed(before, pos, len).len() == before.len() - len,
        i < pos ==> removed(before, pos, len)[i] == before[i],
        i >= pos + len ==> removed(before, pos, len)[i - len] == before[i],
{
}

/// Two deletions at one position are one.
pub proof fn law_deletes_add_up<T>(before: Seq<T>, pos: int, first: int, second: int)
    requires
        0 <= pos,
        0 <= first,
        0 <= second,
        pos + first + second <= before.len(),
    ensures
        removed(removed(before, pos, first), pos, second) == removed(before, pos, first + second),
{
    assert(removed(removed(before, pos, first), pos, second) =~= removed(
        before,
        pos,
        first + second,
    ));
}

/// Two insertions side by side are one: to insert `a`, and then `b` right after it, is to insert
/// `a` followed by `b`.
pub proof fn law_inserts_add_up<T: Clone>(
    before: Seq<T>,
    pos: int,
    a: Seq<T>,
    b: Seq<T>,
    between: Seq<T>,
    after: Seq<T>,
    at_once: Seq<T>,
)
    requires
        0 <= pos <= before.len(),
        inserted(before, pos, a, between),
        inserted(between, pos + a.len(), b, after),
    ensures
        inserted(before, pos, a + b, after),
        inserted(before, pos, a + b, at_once) && clones_are_equal::<T>() ==> at_once == after,
{
    let whole = a + b;
    let n = whole.len() as int;
    assert(after.take(pos) =~= before.take(pos)) by {
        assert forall|i: int| 0 <= i < pos implies after[i] == before[i] by {
            assert(after.take(pos + a.len())[i] == between.take(pos + a.len())[i]);
            assert(between.take(pos)[i] == before.take(pos)[i]);
        }
    }
    assert(after.skip(pos + n) =~= before.skip(pos)) by {
        assert(after.skip(pos + a.len() + b.len()) == between.skip(pos + a.len()));
    }
    assert forall|i: int| 0 <= i < n implies cloned(
        whole[i],
        #[trigger] after[pos + i],
    ) by {
        if i < a.len() {
            assert(after.take(pos + a.len())[pos + i] == between.take(pos + a.len())[pos + i]);
            assert(cloned(a[i], between[pos + i]));
        } else {
            assert(cloned(b[i - a.len()], after[pos + a.len() + (i - a.len())]));
        }
    }
    assert(inserted(before, pos, whole, after));
    if inserted(before, pos, whole, at_once) && clones_are_equal::<T>() {
        law_insert_is_exact(before, pos, whole, after);
        law_insert_is_exact(before, pos, whole, at_once);
    }
}

/// An empty insertion and an empty deletion change nothing.
pub proof fn law_empty_edits<T: Clone>(before: Seq<T>, pos: int, after: Seq<T>)
    requires
        0 <= pos <= before.len(),
    ensures
        inserted(before, pos, Seq::empty(), after) ==> after == before,
        removed(before, pos, 0) == before,
{
    if inserted(before, pos, Seq::empty(), after) {
        assert forall|i: int| 0 <= i < after.len() implies after[i] == before[i] by {
            law_insert_keeps_elements(before, pos, Seq::empty(), after, i);
        }
        assert(after =~= before);
    }
    assert(removed(before, pos, 0) =~= before);
}

/// There is one outcome of an insertion, where all clones of one element are the same.
pub proof fn law_insert_is_determined<T: Clone>(
    before: Seq<T>,
    pos: int,
    data: Seq<T>,
    one: Seq<T>,
    other: Seq<T>,
)
    requires
        0 <= pos <= before.len(),
        inserted(before, pos, data, one),
        inserted(before, pos, data, other),
        clones_are_alike::<T>(),
    ensures
        one == other,
{
    assert forall|i: int| 0 <= i < one.len() implies one[i] == other[i] by {
        if i < pos {
            assert(one.take(pos)[i] == before.take(pos)[i]);
            assert(other.take(pos)[i] == before.take(pos)[i]);
        } else if i < pos + data.len() {
            assert(cloned(data[i - pos], one[pos + (i - pos)]));
            assert(cloned(data[i - pos], other[pos + (i - pos)]));
        } else {
            let j = i - (pos + data.len());
            assert(one.skip(pos + data.len())[j] == before.skip(pos)[j]);
            assert(other.skip(pos + data.len())[j] == before.skip(pos)[j]);
        }
    }
    assert(one =~= other);
}

/// Two buffers of the same content have the same content after the same insertion, where all
/// clones of one element are the same.
pub proof fn law_backends_insert_alike<T: Clone + PartialEq, A: TextBuffer<T>, B: TextBuffer<T>>(
    a: A,
    b: B,
    pos: int,
    data: Seq<T>,
    a_after: A,
    b_after: B,
)
    requires
        a.content() == b.content(),
        0 <= pos <= a.content().len(),
        inserted(a.content(), pos, data, a_after.content()),
        inserted(b.content(), pos, data, b_after.content()),
        clones_are_alike::<T>(),
    ensures
        a_after.content() == b_after.content(),
{
    law_insert_is_determined(a.content(), pos, data, a_after.content(), b_after.content());
}

/// Two buffers of the same content have the same content after the same deletion.
pub proof fn law_backends_delete_alike<T: Clone + PartialEq, A: TextBuffer<T>, B: TextBuffer<T>>(
    a: A,
    b: B,
    pos: int,
    len: int,
    a_after: A,
    b_after: B,
)
    requires
        a.content() == b.content(),
        a_after.content() == removed(a.content(), pos, len),
        b_after.content() == removed(b.content(), pos, len),
    ensures
        a_after.content() == b_after.content(),
{
}

/// A call that edits a buffer.
pub enum Call<T> {
    Insert { pos: int, data: Seq<T> },
    Delete { pos: int, len: int },
}

/// `after` is the document `before` once `call` was made, which lies within it.
pub open spec fn follows<T: Clone>(before: Seq<T>, call: Call<T>, after: Seq<T>) -> bool {
    match call {
        Call::Insert { pos, data } => 0 <= pos <= before.len() && inserted(
            before,
            pos,
            data,
            after,
        ),
        Call::Delete { pos, len } => {
            &&& 0 <= pos
            &&& 0 <= len
            &&& pos + len <= before.len()
            &&& after == removed(before, pos, len)
        },
    }
}

/// `history` holds the states that a buffer goes through when `calls` are made.
pub open spec fn replayed<T: Clone + PartialEq, B: TextBuffer<T>>(
    history: Seq<B>,
    calls: Seq<Call<T>>,
) -> bool {
    &&& history.len() == calls.len() + 1
    &&& forall|k: int|
        0 <= k < calls.len() ==> follows(
            history[k].content(),
            #[trigger] calls[k],
            history[k + 1].content(),
        )
}

/// Two buffers that begin with the same content have the same content after each of the same
/// calls, where all clones of one element are the same.
pub proof fn law_backends_stay_alike<T: Clone + PartialEq, A: TextBuffer<T>, B: TextBuffer<T>>(
    a: Seq<A>,
    b: Seq<B>,
    calls: Seq<Call<T>>,
    k: int,
)
    requires
        replayed(a, calls),
        replayed(b, calls),
        a[0].content() == b[0].content(),
        clones_are_alike::<T>(),
        0 <= k <= calls.len(),
    ensures
        a[k].content() == b[k].content(),
    decreases k,
{
    if k > 0 {
        law_backends_stay_alike(a, b, calls, k - 1);
        let call = calls[k - 1];
        match call {
            Call::Insert { pos, data } => {
                law_insert_is_determined(
                    a[k - 1].content(),
                    pos,
                    data,
                    a[k].content(),
                    b[k].content(),
                );
            },
            Call::Delete { pos, len } => {},
        }
    }
}

/// Two tables of the same content read alike: they have the same length, give the same element at
/// each position and when iterated, and find a pattern at the same positions, whatever relation
/// `==` answers.
pub proof fn law_tables_read_alike<'a, T: Clone + PartialEq>(
    a: &'a PieceTable<T>,
    b: &'a CompactPieceTable<T>,
    lens: (usize, usize),
    index: usize,
    got: (Option<&'a T>, Option<&'a T>),
    items: (Iter<'a, T>, CompactIter<'a, T>),
    pattern: &'a [T],
    hits: (Vec<usize>, Vec<usize>),
    rel: Relation<T>,
)
    requires
        a@ == b@,
        call_ensures(PieceTable::<T>::len, (a,), lens.0),
        call_ensures(CompactPieceTable::<T>::len, (b,), lens.1),
        call_ensures(PieceTable::<T>::get, (a, index), got.0),
        call_ensures(CompactPieceTable::<T>::get, (b, index), got.1),
        call_ensures(PieceTable::<T>::iter, (a,), items.0),
        call_ensures(CompactPieceTable::<T>::iter, (b,), items.1),
        call_ensures(PieceTable::<T>::find_substring, (a, pattern), hits.0),
        call_ensures(CompactPieceTable::<T>::find_substring, (b, pattern), hits.1),
        answers::<T>(rel),
    ensures
        lens.0 == lens.1,
        got.0 == got.1,
        items.0.remaining() == items.1.remaining(),
        items.1.remaining().len() == lens.1,
        index < lens.1 ==> got.1 == Some(items.1.remaining()[index as int]),
        index >= lens.1 ==> got.1 is None,
        hits.0@ == hits.1@,
{
}

/// The two tables are interchangeable: after each of the same calls on tables that begin with the
/// same content, where all clones of one element are the same, they read alike.
pub proof fn law_backends_are_interchangeable<'a, T: Clone + PartialEq>(
    a: Seq<PieceTable<T>>,
    b: Seq<CompactPieceTable<T>>,
    calls: Seq<Call<T>>,
    k: int,
    lens: (usize, usize),
    index: usize,
    got: (Option<&'a T>, Option<&'a T>),
    items: (Iter<'a, T>, CompactIter<'a, T>),
    pattern: &'a [T],
    hits: (Vec<usize>, Vec<usize>),
    rel: Relation<T>,
)
    requires
        replayed(a, calls),
        replayed(b, calls),
        a[0]@ == b[0]@,
        clones_are_alike::<T>(),
        0 <= k <= calls.len(),
        call_ensures(PieceTable::<T>::len, (&a[k],), lens.0),
        call_ensures(CompactPieceTable::<T>::len, (&b[k],), lens.1),
        call_ensures(PieceTable::<T>::get, (&a[k], index), got.0),
        call_ensures(CompactPieceTable::<T>::get, (&b[k], index), got.1),
        call_ensures(PieceTable::<T>::iter, (&a[k],), items.0),
        call_ensures(CompactPieceTable::<T>::iter, (&b[k],), items.1),
        call_ensures(PieceTable::<T>::find_substring, (&a[k], pattern), hits.0),
        call_ensures(CompactPieceTable::<T>::find_substring, (&b[k], pattern), hits.1),
        answers::<T>(rel),
    ensures
        a[k]@ == b[k]@,
        lens.0 == lens.1,
        got.0 == got.1,
        items.0.remaining() == items.1.remaining(),
        index < lens.1 ==> got.1 == Some(items.1.remaining()[index as int]),
        hits.0@ == hits.1@,
{
    law_backends_stay_alike(a, b, calls, k);
    law_tables_read_alike(&a[k], &b[k], lens, index, got, items, pattern, hits, rel);
}

/// Iterating gives the elements that are read one by one.
pub proof fn law_iter_gives_elements<T>(s: Seq<T>, i: int)
    requires
        0 <= i < s.len(),
    ensures
        refs::<T>(s).len() == s.len(),
        *refs::<T>(s)[i] == s[i],
{
}

/// Iterating over a range gives a part of what iterating over the whole gives.
pub proof fn law_range_is_part<T>(s: Seq<T>, start: int, end: int)
    requires
        0 <= start <= end <= s.len(),
    ensures
        refs::<T>(s.subrange(start, end)) == refs::<T>(s).subrange(start, end),
        refs::<T>(s.subrange(0, s.len() as int)) == refs::<T>(s),
{
    assert(refs::<T>(s.subrange(start, end)) =~= refs::<T>(s).subrange(start, end));
    assert(s.subrange(0, s.len() as int) =~= s);
}

/// There is one list of all the positions of a pattern, in order. So all ways to search, in
/// either table, give the same.
pub proof fn law_hits_are_unique<T>(
    a: Seq<usize>,
    b: Seq<usize>,
    t: Seq<T>,
    p: Seq<T>,
    rel: Relation<T>,
)
    requires
        all_hits(a, t, p, rel),
        all_hits(b, t, p, rel),
    ensures
        a == b,
{
    lemma_no_hit_missed(a, b, t, p, rel);
    lemma_no_hit_missed(b, a, t, p, rel);
    lemma_same_ascending(a, b);
}

proof fn lemma_no_hit_missed<T>(
    a: Seq<usize>,
    b: Seq<usize>,
    t: Seq<T>,
    p: Seq<T>,
    rel: Relation<T>,
)
    requires
        all_hits(a, t, p, rel),
        all_hits(b, t, p, rel),
    ensures
        forall|i: int| 0 <= i < a.len() ==> b.contains(#[trigger] a[i]),
{
    assert forall|i: int| 0 <= i < a.len() implies b.contains(#[trigger] a[i]) by {
        assert(matches_at(t, p, a[i] as int, rel));
    }
}

/// Two ascending lists of the same numbers are one.
proof fn lemma_same_ascending(a: Seq<usize>, b: Seq<usize>)
    requires
        forall|i: int, j: int| #![trigger a[i], a[j]] 0 <= i < j < a.len() ==> a[i] < a[j],
        forall|i: int, j: int| #![trigger b[i], b[j]] 0 <= i < j < b.len() ==> b[i] < b[j],
        forall|i: int| 0 <= i < a.len() ==> b.contains(#[trigger] a[i]),
        forall|i: int| 0 <= i < b.len() ==> a.contains(#[trigger] b[i]),
    ensures
        a == b,
    decreases a.len(),
{
    if a.len() == 0 {
        if b.len() > 0 {
            assert(a.contains(b[0]));
        }
        assert(a =~= b);
    } else {
        assert(b.contains(a[a.len() - 1]));
        let k = choose|k: int| 0 <= k < b.len() && b[k] == a[a.len() - 1];
        let n = b.len() - 1;
        assert(a.contains(b[n]));
        let l = choose|l: int| 0 <= l < a.len() && a[l] == b[n];
        assert(a.last() == b.last()) by {
            if k < n {
                assert(b[k] < b[n]);
                if l < a.len() - 1 {
                    assert(a[l] < a[a.len() - 1]);
                }
            }
        }
        let c = a.drop_last();
        let d = b.drop_last();
        assert forall|i: int| 0 <= i < c.len() implies d.contains(#[trigger] c[i]) by {
            assert(b.contains(a[i]));
            let j = choose|j: int| 0 <= j < b.len() && b[j] == a[i];
            assert(a[i] < a[a.len() - 1]);
            assert(d[j] == c[i]);
        }
        assert forall|i: int| 0 <= i < d.len() implies c.contains(#[trigger] d[i]) by {
            assert(a.contains(b[i]));
            let j = choose|j: int| 0 <= j < a.len() && a[j] == b[i];
            assert(b[i] < b[n]);
            assert(c[j] == d[i]);
        }
        lemma_same_ascending(c, d);
        assert(a =~= c.push(a.last()));
        assert(b =~= d.push(b.last()));
    }
}

/// A cursor on an element that is not the last steps to the next element.
pub proof fn law_cursor_steps_forward<'a, T>(c: Cursor<'a, T>, after: Cursor<'a, T>)
    requires
        c.attached(),
        c.at() + 1 < c.table()@.len(),
        c.stepped(after),
        after.table() == c.table(),
    ensures
        after.attached(),
        after.at() == c.at() + 1,
        after.current() == Some(&c.table()@[c.at() + 1]),
{
}

/// A cursor on an element that is not the first steps back to the one before.
pub proof fn law_cursor_steps_back<'a, T>(c: Cursor<'a, T>, after: Cursor<'a, T>)
    requires
        c.attached(),
        c.at() > 0,
        c.stepped_back(after),
        after.table() == c.table(),
    ensures
        after.attached(),
        after.at() == c.at() - 1,
        after.current() == Some(&c.table()@[c.at() - 1]),
{
}

/// A step back undoes a step forward to another element.
pub proof fn law_cursor_round_trip<'a, T>(
    c: Cursor<'a, T>,
    there: Cursor<'a, T>,
    back: Cursor<'a, T>,
)
    requires
        c.attached(),
        0 <= c.at(),
        c.at() + 1 < c.table()@.len(),
        c.stepped(there),
        there.table() == c.table(),
        there.stepped_back(back),
        back.table() == c.table(),
    ensures
        back.attached(),
        back.at() == c.at(),
        back.current() == c.current(),
{
}

/// A cursor that has stepped past the last element stays at the end, and gives nothing, as long
/// as it is stepped forward.
pub proof fn law_cursor_ends<'a, T>(c: Cursor<'a, T>, there: Cursor<'a, T>, further: Cursor<'a, T>)
    requires
        c.at() + 1 >= c.table()@.len(),
        c.stepped(there),
        there.table() == c.table(),
        there.stepped(further),
        further.table() == c.table(),
    ensures
        there.current() is None,
        there.at() == c.table()@.len(),
        further.current() is None,
        further.at() == c.table()@.len(),
{
}

/// The tree is balanced: every leaf is on the last of its levels, and their number is the height.
/// An empty document, and no other, has height zero.
pub proof fn law_tree_is_balanced<T: Clone + PartialEq>(table: PieceTable<T>, height: usize)
    requires
        table.wf(),
        table.original_len() + 2 * table.added() < usize::MAX,
        call_ensures(PieceTable::<T>::height, (&table,), height),
    ensures
        height == table.levels(),
        table.tree() matches Some(n) ==> n.leaves_lie_at(height as nat),
        height == 0 <==> table@.len() == 0,
{
    match table.root {
        Some(n) => {
            lemma_leaves(*n, n.tall());
        },
        None => {},
    }
}

/// A new document has height one, unless it is empty.
pub proof fn law_new_height<T: Clone + PartialEq>(
    initial: Vec<T>,
    table: PieceTable<T>,
    height: usize,
)
    requires
        call_ensures(PieceTable::<T>::new, (initial,), table),
        call_ensures(PieceTable::<T>::height, (&table,), height),
    ensures
        height == (if initial@.len() > 0 {
            1int
        } else {
            0int
        }),
{
}

/// The index of a compact table has height zero if the document is empty, and only then.
pub proof fn law_compact_height<T: Clone + PartialEq>(table: CompactPieceTable<T>, height: usize)
    requires
        table.wf(),
        call_ensures(CompactPieceTable::<T>::height, (&table,), height),
    ensures
        height == 0 <==> table@.len() == 0,
{
}

/// What can be done to a table.
pub enum Edit {
    Insert { pos: int, len: int },
    Delete { pos: int, len: int },
    Read,
}

impl Edit {
    /// It puts some element in.
    pub open spec fn inserts(self) -> bool {
        self matches Edit::Insert { len, .. } && len > 0
    }

    /// It takes some element out.
    pub open spec fn deletes(self) -> bool {
        self matches Edit::Delete { len, .. } && len > 0
    }
}

/// `b` is `a` after the edit `e`.
pub open spec fn edited<T>(a: PieceTable<T>, e: Edit, b: PieceTable<T>) -> bool {
    match e {
        Edit::Insert { pos, len } => if len > 0 {
            b@.len() == a@.len() + len && a.after_insert(pos, len, b)
        } else {
            b == a
        },
        Edit::Delete { pos, len } => if len > 0 {
            a.after_delete(pos, len, b)
        } else {
            b == a
        },
        Edit::Read => b == a,
    }
}

/// `history` holds the states that a table goes through under `edits`.
pub open spec fn ran<T>(history: Seq<PieceTable<T>>, edits: Seq<Edit>) -> bool {
    &&& history.len() == edits.len() + 1
    &&& forall|k: int|
        0 <= k < edits.len() ==> edited(history[k], #[trigger] edits[k], history[k + 1])
}

/// How many of the edits put some element in.
pub open spec fn inserts_in(edits: Seq<Edit>) -> nat
    decreases edits.len(),
{
    if edits.len() == 0 {
        0
    } else {
        inserts_in(edits.drop_last()) + (if edits.last().inserts() {
            1nat
        } else {
            0nat
        })
    }
}

/// How many of the edits take some element out.
pub open spec fn deletes_in(edits: Seq<Edit>) -> nat
    decreases edits.len(),
{
    if edits.len() == 0 {
        0
    } else {
        deletes_in(edits.drop_last()) + (if edits.last().deletes() {
            1nat
        } else {
            0nat
        })
    }
}

/// After how many of the edits two pieces met that could be one.
pub open spec fn joins_in<T>(history: Seq<PieceTable<T>>, edits: Seq<Edit>) -> nat
    decreases edits.len(),
{
    if edits.len() == 0 {
        0
    } else {
        let n = edits.len() - 1;
        joins_in(history.drop_last(), edits.drop_last()) + (match edits[n] {
            Edit::Delete { pos, len } => if len > 0 && history[n].meets(pos, len) {
                1nat
            } else {
                0nat
            },
            _ => 0nat,
        })
    }
}

/// How often a piece was cut or a node was made, except the first node of an empty document.
pub open spec fn splits_in<T>(history: Seq<PieceTable<T>>, edits: Seq<Edit>) -> int
    decreases edits.len(),
{
    if edits.len() == 0 {
        0
    } else {
        let n = edits.len() - 1;
        let (a, b) = (history[n], history[n + 1]);
        splits_in(history.drop_last(), edits.drop_last()) + (match edits[n] {
            Edit::Insert { pos, len } => if len > 0 && a@.len() > 0 {
                one_if(a.splits(pos)) + (b.nodes() - a.nodes())
            } else {
                0
            },
            Edit::Delete { pos, len } => if len > 0 {
                one_if(a.splits(pos)) + one_if(a.splits(pos + len)) + (b.nodes_made()
                    - a.nodes_made())
            } else {
                0
            },
            Edit::Read => 0,
        })
    }
}

proof fn lemma_ran_before<T>(history: Seq<PieceTable<T>>, edits: Seq<Edit>)
    requires
        ran(history, edits),
        edits.len() > 0,
    ensures
        ran(history.drop_last(), edits.drop_last()),
        edited(history.drop_last().last(), edits.last(), history.last()),
{
    let h = history.drop_last();
    let e = edits.drop_last();
    assert forall|k: int| 0 <= k < e.len() implies edited(h[k], #[trigger] e[k], h[k + 1]) by {
        assert(edits[k] == e[k]);
    }
    assert(edits[edits.len() - 1] == edits.last());
}

/// Whatever is done to a table whose counters are zero, they then tell how many insertions and how
/// many deletions were not empty, how often pieces were merged, how often pieces or nodes were,
/// and how often a piece was cut or a node made. Reading counts nothing, and a coalesce is a merge.
pub proof fn law_counters_count_edits<T>(history: Seq<PieceTable<T>>, edits: Seq<Edit>)
    requires
        ran(history, edits),
        history[0].counts() == Stats::zero(),
    ensures
        ({
            let counts = history.last().counts();
            let joins = joins_in(history, edits);
            let merged = history.last().nodes_merged() - history[0].nodes_merged();
            &&& counted(0, inserts_in(edits) as int, counts.inserts)
            &&& counted(0, deletes_in(edits) as int, counts.deletes)
            &&& counted(0, joins as int, counts.coalesces)
            &&& merged >= 0
            &&& counted(0, joins + merged, counts.merge_calls)
            &&& joins + merged <= usize::MAX ==> counts.coalesces <= counts.merge_calls
            &&& counted(0, splits_in(history, edits), counts.split_calls)
        }),
    decreases edits.len(),
{
    if edits.len() == 0 {
        assert(history[0] == history.last());
        lemma_counted_few(0);
    } else {
        let h = history.drop_last();
        let e = edits.drop_last();
        lemma_ran_before(history, edits);
        law_counters_count_edits(h, e);
        let a = h.last();
        let b = history.last();
        assert(h[0] == history[0]);
        assert(a == history[edits.len() - 1]);
        assert(edits.last() == edits[edits.len() - 1]);
        let s = a.counts();
        let t = b.counts();
        let joins = joins_in(h, e) as int;
        let merged = a.nodes_merged() - h[0].nodes_merged();
        match edits.last() {
            Edit::Insert { pos, len } if len > 0 => {
                let more = one_if(a.splits(pos)) + (if a@.len() == 0 {
                    0
                } else {
                    b.nodes() - a.nodes()
                });
                lemma_counted_trans(0, inserts_in(e) as int, s.inserts, 1, t.inserts);
                lemma_counted_trans(0, splits_in(h, e), s.split_calls, more, t.split_calls);
            },
            Edit::Delete { pos, len } if len > 0 => {
                let joint = one_if(a.meets(pos, len));
                let fewer = b.nodes_merged() - a.nodes_merged();
                let more = one_if(a.splits(pos)) + one_if(a.splits(pos + len)) + (b.nodes_made()
                    - a.nodes_made());
                lemma_counted_trans(0, deletes_in(e) as int, s.deletes, 1, t.deletes);
                lemma_counted_trans(0, splits_in(h, e), s.split_calls, more, t.split_calls);
                lemma_counted_trans(0, joins, s.coalesces, joint, t.coalesces);
                lemma_counted_trans(
                    0,
                    joins + merged,
                    s.merge_calls,
                    joint + fewer,
                    t.merge_calls,
                );
            },
            _ => {},
        }
    }
}

/// No node of a valid table has more pieces or children than it is to have, and a root that has
/// children has at least two.
pub proof fn law_nodes_stay_in_bounds<T>(table: PieceTable<T>)
    requires
        table.wf(),
    ensures
        table.fits(),
        table.tree() matches Some(n) ==> fits(*n) && branches(*n),
{
}

/// A table whose nodes, but for the root, are all at least half full keeps them so as long as
/// nothing is deleted.
pub proof fn law_insertions_keep_nodes_half_full<T>(
    history: Seq<PieceTable<T>>,
    edits: Seq<Edit>,
)
    requires
        ran(history, edits),
        history[0].half_full(),
        deletes_in(edits) == 0,
    ensures
        history.last().half_full(),
    decreases edits.len(),
{
    if edits.len() == 0 {
        assert(history[0] == history.last());
    } else {
        let h = history.drop_last();
        let e = edits.drop_last();
        lemma_ran_before(history, edits);
        law_insertions_keep_nodes_half_full(h, e);
        assert(h[0] == history[0]);
    }
}

/// Edits that put text in as it is typed: each right after the one before.
pub open spec fn typed(edits: Seq<Edit>) -> bool {
    &&& forall|k: int| 0 <= k < edits.len() ==> (#[trigger] edits[k]).inserts()
    &&& forall|k: int|
        0 < k < edits.len() ==> (#[trigger] edits[k])->Insert_pos == edits[k - 1]->Insert_pos
            + edits[k - 1]->Insert_len
}

/// Text that is typed into an empty document, or after what was inserted last, is held by one
/// piece: no split is counted, and no node is made but for the first.
pub proof fn law_typing_splits_nothing<T>(history: Seq<PieceTable<T>>, edits: Seq<Edit>)
    requires
        ran(history, edits),
        edits.len() > 0,
        typed(edits),
        history[0]@.len() == 0 || history[0].extends(edits[0]->Insert_pos),
    ensures
        history.last().counts().split_calls == history[0].counts().split_calls,
        history[0]@.len() > 0 ==> history.last().nodes() == history[0].nodes(),
        history.last().nodes() == history[1].nodes(),
        history.last().extends(edits.last()->Insert_pos + edits.last()->Insert_len),
        history.last()@.len() > 0,
    decreases edits.len(),
{
    let h = history.drop_last();
    let e = edits.drop_last();
    let a = h.last();
    let b = history.last();
    lemma_ran_before(history, edits);
    assert(edits.last() == edits[edits.len() - 1]);
    let pos = edits.last()->Insert_pos;
    assert(edits.last().inserts());
    if edits.len() > 1 {
        assert forall|k: int| 0 <= k < e.len() implies (#[trigger] e[k]).inserts() by {
            assert(edits[k].inserts());
        }
        assert forall|k: int| 0 < k < e.len() implies (#[trigger] e[k])->Insert_pos == e[k
            - 1]->Insert_pos + e[k - 1]->Insert_len by {
            assert(edits[k] == e[k] && edits[k - 1] == e[k - 1]);
        }
        assert(h[0] == history[0] && h[1] == history[1] && e[0] == edits[0]);
        law_typing_splits_nothing(h, e);
        assert(e.last() == edits[edits.len() - 2]);
        assert(a.extends(pos));
    } else {
        assert(a == history[0] && b == history[1]);
        assert(edits.last() == edits[0]);
    }
    lemma_counted_none(a.counts().split_calls, b.counts().split_calls);
}

} // verus!
