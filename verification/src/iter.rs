//! Reading a piece table in order.
use vstd::prelude::*;
use vstd::std_specs::iter::IteratorSpec;

use crate::document::lemma_tree_marks;
use crate::piece::{BufferKind, Mark, Piece};
use crate::table::{AccessCache, PieceTable};
use crate::tree::lies_at;
use crate::walk::{lemma_placement, lemma_tree_pieces, placements_of, tree_flat, Walk};

verus! {

/// References to the elements of `s`.
pub open spec fn refs<'a, T>(s: Seq<T>) -> Seq<&'a T> {
    s.map_values(|x: T| &x)
}

/// The elements of a document, in order.
pub struct Iter<'a, T> {
    walk: Walk<'a, T>,
}

impl<'a, T> Iter<'a, T> {
    #[verifier::type_invariant]
    spec fn valid(self) -> bool {
        self.walk.wf()
    }

    /// The elements that are left.
    pub closed spec fn rest(&self) -> Seq<T> {
        self.walk.rest()
    }

    pub(crate) fn new(table: &'a PieceTable<T>) -> (it: Self)
        requires
            table.wf(),
        ensures
            it.rest() == table@,
            it.remaining() == refs(table@),
    {
        Iter { walk: Walk::start(table) }
    }
}

impl<'a, T> Iterator for Iter<'a, T> {
    type Item = &'a T;

    fn next(&mut self) -> (r: Option<Self::Item>) {
        proof {
            use_type_invariant(&*self);
        }
        let mut walk = Walk::nowhere(self.walk.table);
        std::mem::swap(&mut walk, &mut self.walk);
        let ghost before = refs::<T>(walk.rest());
        let r = walk.advance();
        std::mem::swap(&mut walk, &mut self.walk);
        proof {
            assert(before.len() > 0 ==> refs::<T>(self.walk.rest()) =~= before.drop_first());
            assert(before.len() == 0 ==> refs::<T>(self.walk.rest()) =~= before);
        }
        r
    }
}

impl<'a, T> vstd::std_specs::iter::IteratorSpecImpl for Iter<'a, T> {
    open spec fn obeys_prophetic_iter_laws(&self) -> bool {
        true
    }

    closed spec fn remaining(&self) -> Seq<Self::Item> {
        refs(self.walk.rest())
    }

    closed spec fn will_return_none(&self) -> bool {
        true
    }

    closed spec fn decrease(&self) -> Option<nat> {
        Some(self.walk.rest().len())
    }

    open spec fn initial_value_relation(&self, init: &Self) -> bool {
        true
    }

    open spec fn peek(&self, index: int) -> Option<Self::Item> {
        None
    }
}

/// The positions from `lo` up to `hi` are those of one whole piece, and `pos` is one of them.
pub open spec fn one_piece(m: Seq<Mark>, lo: int, hi: int, pos: int) -> bool {
    &&& 0 <= lo <= pos < hi <= m.len()
    &&& m[lo].head
    &&& hi < m.len() ==> m[hi].head
    &&& forall|k: int|
        lo <= k < hi ==> {
            &&& (#[trigger] m[k]).buffer == m[lo].buffer
            &&& m[k].at == m[lo].at + (k - lo)
            &&& k > lo ==> !m[k].head
        }
}

proof fn lemma_one_piece(m: Seq<Mark>, p: Piece, start: int, pos: int)
    requires
        lies_at(m, p, start),
        start <= pos < start + (p.end - p.start),
    ensures
        one_piece(m, start, start + (p.end - p.start), pos),
        m[pos].buffer == p.buffer,
        m[pos].at == p.start + (pos - start),
{
    let end = start + (p.end - p.start);
    assert forall|k: int| start <= k < end implies #[trigger] m[k] == p.marks()[k - start] by {
        assert(m[k] == m.subrange(start, end)[k - start]);
    }
    assert(m[start].head);
    if end < m.len() {
        assert(m[end] == m.skip(end)[0]);
    }
}

impl<T> PieceTable<T> {
    /// The positions from `lo` up to `hi` are those of one piece of the document, and `pos` is
    /// one of them.
    pub open(crate) spec fn covers(&self, lo: int, hi: int, pos: int) -> bool {
        one_piece(self.marks(), lo, hi, pos)
    }
}

/// A position in a document, from which one can step to the next element or the previous one.
///
/// A cursor that is stepped past the last element lets go of the document. It takes hold again
/// when it is stepped to a piece other than the last that it was on.
pub struct Cursor<'a, T> {
    table: &'a PieceTable<T>,
    pos: usize,
    piece_start: usize,
    piece_end: usize,
    buffer: Option<BufferKind>,
    buffer_index: usize,
    node_path: Vec<usize>,
    piece_cache: Option<Vec<AccessCache>>,
    piece_cache_idx: usize,
}

impl<'a, T> Cursor<'a, T> {
    pub closed spec fn table(&self) -> &'a PieceTable<T> {
        self.table
    }

    /// The position.
    pub closed spec fn at(&self) -> int {
        self.pos as int
    }

    /// Whether the cursor holds on to the element at its position.
    pub closed spec fn attached(&self) -> bool {
        self.buffer is Some
    }

    /// Where the piece begins and ends that the cursor was last found to be on.
    pub closed spec fn piece(&self) -> (int, int) {
        (self.piece_start as int, self.piece_end as int)
    }

    pub closed spec fn wf(&self) -> bool {
        &&& self.table.wf()
        &&& self.place_ok()
        &&& self.cache_ok()
    }

    spec fn place_ok(&self) -> bool {
        let m = self.table.marks();
        &&& self.pos <= m.len()
        &&& match self.buffer {
            Some(b) => {
                &&& one_piece(m, self.piece_start as int, self.piece_end as int, self.pos as int)
                &&& m[self.pos as int].buffer == b
                &&& m[self.pos as int].at == self.buffer_index
            },
            None => {
                ||| self.piece_start == 0 && self.piece_end == 0
                ||| {
                    &&& self.piece_end == m.len()
                    &&& self.piece_start <= self.pos
                    &&& one_piece(m, self.piece_start as int, self.piece_end as int, m.len() - 1)
                    &&& self.buffer_index <= m[self.piece_start as int].at + (self.pos
                        - self.piece_start)
                }
            },
        }
    }

    spec fn cache_ok(&self) -> bool {
        &&& self.piece_cache_idx < usize::MAX
        &&& match self.piece_cache {
            Some(caches) => {
                &&& caches@ == placements_of(tree_flat(self.table.root), 0)
                &&& self.piece_cache_idx == 0 || self.piece_cache_idx < caches@.len()
            },
            None => self.piece_cache_idx == 0,
        }
    }

    /// There is a list of the pieces, and piece `idx` of it is the one at the cursor's position.
    spec fn listed_at(&self, idx: usize) -> bool {
        &&& self.piece_cache matches Some(caches)
        &&& idx < caches@.len()
        &&& caches@[idx as int].piece_start <= self.pos < caches@[idx as int].piece_end
    }

    /// The element that the cursor holds on to.
    pub open spec fn current(&self) -> Option<&'a T> {
        if self.attached() {
            Some(&self.table()@[self.at()])
        } else {
            None
        }
    }

    /// Where the cursor is after a step forward: one position further on if there is an element,
    /// else at the end, detached.
    pub open spec fn stepped(&self, after: Self) -> bool {
        let next = self.at() + 1;
        if next >= self.table()@.len() {
            &&& after.at() == self.table()@.len()
            &&& !after.attached()
            &&& after.piece() == self.piece()
        } else if next < self.piece().1 {
            &&& after.at() == next
            &&& after.attached() == self.attached()
            &&& after.piece() == self.piece()
        } else {
            &&& after.at() == next
            &&& after.attached()
            &&& self.table().covers(after.piece().0, after.piece().1, next)
        }
    }

    /// Where the cursor is after a step back: one position before, unless it was at the first.
    pub open spec fn stepped_back(&self, after: Self) -> bool {
        let prev = self.at() - 1;
        if prev < 0 {
            &&& after.at() == 0
            &&& after.attached() == self.attached()
            &&& after.piece() == self.piece()
        } else if prev >= self.piece().0 {
            &&& after.at() == prev
            &&& after.attached() == self.attached()
            &&& after.piece() == self.piece()
        } else {
            &&& after.at() == prev
            &&& after.attached()
            &&& self.table().covers(after.piece().0, after.piece().1, prev)
        }
    }
}

impl<'a, T: Clone + PartialEq> Cursor<'a, T> {
    /// A cursor at the end of a document, detached.
    pub(crate) fn detached(table: &'a PieceTable<T>) -> (c: Self)
        requires
            table.wf(),
        ensures
            c.wf(),
            c.table() == table,
            c.at() == table@.len(),
            !c.attached(),
            c.piece() == (0int, 0int),
    {
        Cursor {
            table,
            pos: table.len(),
            piece_start: 0,
            piece_end: 0,
            buffer: None,
            buffer_index: 0,
            node_path: Vec::new(),
            piece_cache: None,
            piece_cache_idx: 0,
        }
    }

    pub(crate) fn new(table: &'a PieceTable<T>, pos: usize) -> (c: Self)
        requires
            table.wf(),
        ensures
            c.wf(),
            c.table() == table,
            if pos < table@.len() {
                &&& c.at() == pos
                &&& c.attached()
                &&& table.covers(c.piece().0, c.piece().1, pos as int)
            } else {
                &&& c.at() == table@.len()
                &&& !c.attached()
                &&& c.piece() == (0int, 0int)
            },
    {
        let mut c = Self::detached(table);
        if pos < table.len() {
            c.pos = pos;
            c.seek();
        }
        c
    }

    /// Takes hold of the element at the cursor's position, found from the root.
    fn seek(&mut self)
        requires
            old(self).table.wf(),
            old(self).pos < old(self).table@.len(),
            old(self).cache_ok(),
        ensures
            final(self).wf(),
            final(self).table == old(self).table,
            final(self).pos == old(self).pos,
            final(self).buffer is Some,
            final(self).table.covers(
                final(self).piece_start as int,
                final(self).piece_end as int,
                final(self).pos as int,
            ),
    {
        proof {
            lemma_tree_marks(self.table.root);
        }
        self.node_path.clear();
        let root = self.table.root.as_ref().unwrap();
        let ghost h = root.tall();
        let (piece, offset, piece_start) = root.find_with_path(
            self.pos,
            0,
            &mut self.node_path,
            Ghost(h),
        );
        proof {
            lemma_one_piece(self.table.marks(), *piece, piece_start as int, self.pos as int);
        }
        self.piece_start = piece_start;
        self.piece_end = piece_start + piece.len();
        self.buffer = Some(piece.buffer);
        self.buffer_index = piece.start + offset;
    }

    /// Lists the pieces of the document, unless that was done before, and finds the one that the
    /// cursor is on.
    fn ensure_piece_cache(&mut self)
        requires
            old(self).table.wf(),
            old(self).cache_ok(),
        ensures
            final(self).cache_ok(),
            final(self).piece_cache is Some,
            final(self).table == old(self).table,
            final(self).pos == old(self).pos,
            final(self).piece_start == old(self).piece_start,
            final(self).piece_end == old(self).piece_end,
            final(self).buffer == old(self).buffer,
            final(self).buffer_index == old(self).buffer_index,
    {
        if self.piece_cache.is_some() {
            return;
        }
        let caches = self.table.placements();
        assert(caches.len() <= usize::MAX);
        let mut idx: usize = 0;
        if caches.len() > 0 {
            while idx < caches.len() - 1 && self.pos >= caches[idx].piece_end
                invariant
                    idx < caches@.len(),
                decreases caches@.len() - idx,
            {
                idx += 1;
            }
        }
        self.piece_cache = Some(caches);
        self.piece_cache_idx = idx;
    }

    /// Takes hold of the element at the cursor's position, if it lies in piece `idx` of the list.
    fn load_from_cache_index(&mut self, idx: usize) -> (did: bool)
        requires
            old(self).table.wf(),
            old(self).pos < old(self).table@.len(),
            old(self).cache_ok(),
        ensures
            final(self).cache_ok(),
            final(self).table == old(self).table,
            final(self).pos == old(self).pos,
            final(self).piece_cache == old(self).piece_cache,
            did == old(self).listed_at(idx),
            did ==> {
                &&& final(self).wf()
                &&& final(self).buffer is Some
                &&& final(self).piece_cache_idx == idx
                &&& old(self).piece_cache matches Some(caches) && {
                    &&& final(self).piece_start == caches@[idx as int].piece_start
                    &&& final(self).piece_end == caches@[idx as int].piece_end
                }
                &&& final(self).table.covers(
                    final(self).piece_start as int,
                    final(self).piece_end as int,
                    final(self).pos as int,
                )
            },
            !did ==> *final(self) == *old(self),
    {
        let cache = match &self.piece_cache {
            None => {
                return false;
            },
            Some(caches) => {
                if idx >= caches.len() {
                    return false;
                }
                caches[idx]
            },
        };
        if self.pos < cache.piece_start || self.pos >= cache.piece_end {
            return false;
        }
        proof {
            lemma_cached_place(self.table, idx as int, self.pos as int);
            assert(0 <= self.table.marks()[self.pos as int].at);
            assert(self.table.original.len() <= usize::MAX);
            assert(self.table.add.len() <= usize::MAX);
        }
        self.piece_cache_idx = idx;
        self.piece_start = cache.piece_start;
        self.piece_end = cache.piece_end;
        self.buffer = Some(cache.buffer);
        self.buffer_index = cache.buffer_start + (self.pos - cache.piece_start);
        true
    }

    /// The element that the cursor holds on to.
    pub fn get(&self) -> (r: Option<&'a T>)
        requires
            self.wf(),
        ensures
            r == self.current(),
    {
        match self.buffer {
            None => None,
            Some(buffer) => {
                proof {
                    assert(0 <= self.table.marks()[self.pos as int].at);
                }
                Some(
                    match buffer {
                        BufferKind::File => &self.table.original[self.buffer_index],
                        BufferKind::Add => &self.table.add[self.buffer_index],
                    },
                )
            },
        }
    }

    /// Steps forward.
    pub fn next(&mut self) -> (r: Option<&'a T>)
        requires
            old(self).wf(),
        ensures
            final(self).wf(),
            final(self).table() == old(self).table(),
            old(self).stepped(*final(self)),
            r == final(self).current(),
    {
        if self.table.is_empty() || self.pos >= self.table.len() - 1 {
            self.buffer = None;
            self.pos = self.table.len();
            return None;
        }
        let ghost m = self.table.marks();
        self.pos += 1;
        if self.pos < self.piece_end {
            proof {
                assert(0 <= m[self.pos as int].at);
                assert(self.table.original.len() <= usize::MAX);
                assert(self.table.add.len() <= usize::MAX);
                assert(m[self.pos - 1].at + 1 == m[self.pos as int].at);
            }
            self.buffer_index += 1;
            return self.get();
        }
        self.ensure_piece_cache();
        if self.load_from_cache_index(self.piece_cache_idx + 1) {
            return self.get();
        }
        self.seek();
        self.get()
    }

    /// Steps back. Gives nothing at the first element, where it does not move.
    pub fn prev(&mut self) -> (r: Option<&'a T>)
        requires
            old(self).wf(),
        ensures
            final(self).wf(),
            final(self).table() == old(self).table(),
            old(self).stepped_back(*final(self)),
            r == (if old(self).at() == 0 {
                None
            } else {
                final(self).current()
            }),
    {
        if self.table.is_empty() || self.pos == 0 || self.pos > self.table.len() {
            return None;
        }
        let ghost m = self.table.marks();
        self.pos -= 1;
        if self.pos >= self.piece_start {
            proof {
                assert(0 <= m[self.pos as int].at);
            }
            self.buffer_index = self.buffer_index.saturating_sub(1);
            return self.get();
        }
        self.ensure_piece_cache();
        if self.piece_cache_idx > 0 && self.load_from_cache_index(self.piece_cache_idx - 1) {
            return self.get();
        }
        self.seek();
        self.get()
    }
}

proof fn lemma_cached_place<T>(table: &PieceTable<T>, idx: int, pos: int)
    requires
        table.wf(),
        0 <= idx < tree_flat(table.root).len(),
        ({
            let c = placements_of(tree_flat(table.root), 0)[idx];
            c.piece_start <= pos < c.piece_end
        }),
    ensures
        ({
            let c = placements_of(tree_flat(table.root), 0)[idx];
            &&& one_piece(table.marks(), c.piece_start as int, c.piece_end as int, pos)
            &&& table.marks()[pos].buffer == c.buffer
            &&& table.marks()[pos].at == c.buffer_start + (pos - c.piece_start)
        }),
{
    let ps = tree_flat(table.root);
    lemma_tree_pieces(table);
    lemma_placement(ps, idx);
    crate::piece::lemma_marks_prefix(ps, idx);
    let start = crate::piece::marks_of(ps.take(idx)).len() as int;
    lemma_one_piece(table.marks(), ps[idx], start, pos);
}

/// The elements of a part of a document, in order.
pub struct RangeIter<'a, T> {
    cursor: Cursor<'a, T>,
    remaining: usize,
    started: bool,
}

impl<'a, T> RangeIter<'a, T> {
    /// The position of the next element.
    spec fn upcoming(&self) -> int {
        if self.started {
            self.cursor.at() + 1
        } else {
            self.cursor.at()
        }
    }

    #[verifier::type_invariant]
    spec fn valid(self) -> bool {
        &&& self.cursor.wf()
        &&& self.remaining > 0 ==> {
            &&& self.cursor.attached()
            &&& 0 <= self.upcoming()
            &&& self.upcoming() + self.remaining <= self.cursor.table()@.len()
        }
    }

    /// The elements that are left.
    pub closed spec fn rest(&self) -> Seq<T> {
        if self.remaining == 0 {
            Seq::empty()
        } else {
            self.cursor.table()@.subrange(self.upcoming(), self.upcoming() + self.remaining)
        }
    }
}

impl<'a, T: Clone + PartialEq> RangeIter<'a, T> {
    pub(crate) fn new(table: &'a PieceTable<T>, start: usize, end: usize) -> (it: Self)
        requires
            table.wf(),
            start <= end <= table@.len(),
        ensures
            it.rest() == table@.subrange(start as int, end as int),
            it.remaining() == refs(table@.subrange(start as int, end as int)),
    {
        let it = RangeIter {
            cursor: Cursor::new(table, start),
            remaining: end - start,
            started: false,
        };
        assert(it.rest() =~= table@.subrange(start as int, end as int));
        it
    }
}

impl<'a, T: Clone + PartialEq> Iterator for RangeIter<'a, T> {
    type Item = &'a T;

    fn next(&mut self) -> (r: Option<Self::Item>) {
        proof {
            use_type_invariant(&*self);
        }
        if self.remaining == 0 {
            return None;
        }
        let ghost before = self.rest();
        let left = self.remaining;
        self.remaining = 0;
        let mut cursor = Cursor::detached(self.cursor.table);
        std::mem::swap(&mut cursor, &mut self.cursor);
        let item = if self.started {
            cursor.next()
        } else {
            cursor.get()
        };
        std::mem::swap(&mut cursor, &mut self.cursor);
        self.started = true;
        self.remaining = left - 1;
        proof {
            assert(self.rest() =~= before.drop_first());
            assert(refs::<T>(self.rest()) =~= refs::<T>(before).drop_first());
        }
        item
    }
}

impl<'a, T: Clone + PartialEq> vstd::std_specs::iter::IteratorSpecImpl for RangeIter<'a, T> {
    open spec fn obeys_prophetic_iter_laws(&self) -> bool {
        true
    }

    closed spec fn remaining(&self) -> Seq<Self::Item> {
        refs(self.rest())
    }

    closed spec fn will_return_none(&self) -> bool {
        true
    }

    closed spec fn decrease(&self) -> Option<nat> {
        Some(self.remaining as nat)
    }

    open spec fn initial_value_relation(&self, init: &Self) -> bool {
        true
    }

    open spec fn peek(&self, index: int) -> Option<Self::Item> {
        None
    }
}

impl<T: Clone + PartialEq> PieceTable<T> {
    /// The elements of the document, in order.
    pub fn iter(&self) -> (it: Iter<'_, T>)
        requires
            self.wf(),
        ensures
            it.rest() == self@,
            it.remaining() == refs(self@),
    {
        Iter::new(self)
    }

    /// The elements from position `start` up to, but not including, `end`, in order.
    pub fn range(&self, start: usize, end: usize) -> (it: RangeIter<'_, T>)
        requires
            self.wf(),
            start <= end <= self@.len(),
        ensures
            it.rest() == self@.subrange(start as int, end as int),
            it.remaining() == refs(self@.subrange(start as int, end as int)),
    {
        RangeIter::new(self, start, end)
    }

    /// A cursor at position `pos`, or at the end, detached, if there is no element there.
    pub fn cursor(&self, pos: usize) -> (c: Cursor<'_, T>)
        requires
            self.wf(),
        ensures
            c.wf(),
            c.table() == self,
            if pos < self@.len() {
                &&& c.at() == pos
                &&& c.attached()
                &&& self.covers(c.piece().0, c.piece().1, pos as int)
            } else {
                &&& c.at() == self@.len()
                &&& !c.attached()
                &&& c.piece() == (0int, 0int)
            },
    {
        Cursor::new(self, pos)
    }
}

} // verus!
