//! Reading a compact piece table in order.
use vstd::prelude::*;
use vstd::std_specs::iter::IteratorSpec;

use crate::compact::CompactPieceTable;
use crate::content::text;
use crate::iter::refs;
use crate::piece::{lemma_marks_at, lemma_marks_split, marks_of, BufferKind, Mark};

verus! {

/// The elements of a document, in order.
pub struct CompactIter<'a, T> {
    table: &'a CompactPieceTable<T>,
    piece_idx: usize,
    piece_off: usize,
}

impl<'a, T> CompactIter<'a, T> {
    spec fn place_ok(&self) -> bool {
        let ps = self.table.pieces@;
        &&& self.piece_idx <= ps.len()
        &&& self.piece_idx < ps.len() ==> self.piece_off <= ps[self.piece_idx as int].end
            - ps[self.piece_idx as int].start
        &&& self.piece_idx == ps.len() ==> self.piece_off == 0
    }

    #[verifier::type_invariant]
    spec fn valid(self) -> bool {
        &&& self.table.wf_document()
        &&& self.place_ok()
    }

    spec fn rest_marks(&self) -> Seq<Mark> {
        marks_of(self.table.pieces@.skip(self.piece_idx as int)).skip(self.piece_off as int)
    }

    /// The elements that are left.
    pub closed spec fn rest(&self) -> Seq<T> {
        text(self.rest_marks(), self.table.original@, self.table.add@)
    }

    fn new(table: &'a CompactPieceTable<T>) -> (it: Self)
        requires
            table.wf(),
        ensures
            it.rest() == table@,
            it.remaining() == refs(table@),
    {
        proof {
            if table.pieces@.len() > 0 {
                assert(table.pieces@[0].sound());
            }
        }
        let it = CompactIter { table, piece_idx: 0, piece_off: 0 };
        proof {
            assert(table.pieces@.skip(0) =~= table.pieces@);
            assert(it.rest_marks() =~= table.marks());
        }
        it
    }
}

/// The marks from a place in piece `i` on.
proof fn lemma_place<T>(table: &CompactPieceTable<T>, i: int, off: int)
    requires
        table.wf_document(),
        0 <= i < table.pieces@.len(),
        0 <= off <= table.pieces@[i].end - table.pieces@[i].start,
    ensures
        ({
            let ps = table.pieces@;
            let p = ps[i];
            let here = marks_of(ps.skip(i)).skip(off);
            &&& off == p.end - p.start ==> here == marks_of(ps.skip(i + 1)).skip(0)
            &&& off < p.end - p.start ==> {
                &&& here.len() > 0
                &&& here[0].buffer == p.buffer
                &&& here[0].at == p.start + off
                &&& here[0].at < (match p.buffer {
                    BufferKind::File => table.original@.len(),
                    BufferKind::Add => table.add@.len(),
                })
                &&& marks_of(ps.skip(i)).skip(off + 1) == here.drop_first()
            }
        }),
{
    let ps = table.pieces@;
    let p = ps[i];
    let m = marks_of(ps.skip(i));
    let here = m.skip(off);
    assert(p.sound());
    lemma_marks_at(ps, i);
    lemma_marks_split(ps, i);
    if off == p.end - p.start {
        assert(here =~= marks_of(ps.skip(i + 1)).skip(0));
    } else {
        let before = marks_of(ps.take(i)).len();
        assert(here[0] == p.marks()[off]);
        assert(table.marks()[before + off] == m[off]);
        assert(0 <= table.marks()[before + off].at);
        assert(m.skip(off + 1) =~= here.drop_first());
    }
}

impl<'a, T> Iterator for CompactIter<'a, T> {
    type Item = &'a T;

    fn next(&mut self) -> (r: Option<Self::Item>) {
        proof {
            use_type_invariant(&*self);
        }
        let ghost before = self.rest();
        loop
            invariant
                self.table == old(self).table,
                self.table.wf_document(),
                self.place_ok(),
                self.rest() == before,
                before == old(self).rest(),
            decreases self.table.pieces@.len() - self.piece_idx,
        {
            if self.piece_idx >= self.table.pieces.len() {
                proof {
                    assert(self.table.pieces@.skip(self.piece_idx as int) =~= Seq::empty());
                    assert(before =~= Seq::empty());
                    assert(refs::<T>(before) =~= Seq::empty());
                }
                return None;
            }
            let piece = &self.table.pieces[self.piece_idx];
            proof {
                assert(self.table.pieces@[self.piece_idx as int].sound());
                lemma_place(self.table, self.piece_idx as int, self.piece_off as int);
            }
            if self.piece_off < piece.len() {
                assert(self.table.original.len() <= usize::MAX);
                assert(self.table.add.len() <= usize::MAX);
                let idx = piece.start + self.piece_off;
                self.piece_off += 1;
                proof {
                    assert(self.rest() =~= before.drop_first());
                    assert(refs::<T>(self.rest()) =~= refs::<T>(before).drop_first());
                }
                return Some(
                    match piece.buffer {
                        BufferKind::File => &self.table.original[idx],
                        BufferKind::Add => &self.table.add[idx],
                    },
                );
            }
            self.piece_off = 0;
            self.piece_idx += 1;
            proof {
                if self.piece_idx < self.table.pieces@.len() {
                    assert(self.table.pieces@[self.piece_idx as int].sound());
                }
            }
        }
    }
}

impl<'a, T> vstd::std_specs::iter::IteratorSpecImpl for CompactIter<'a, T> {
    open spec fn obeys_prophetic_iter_laws(&self) -> bool {
        true
    }

    closed spec fn remaining(&self) -> Seq<Self::Item> {
        refs(self.rest())
    }

    closed spec fn will_return_none(&self) -> bool {
        true
    }

    closed spec fn decrease(&self) -> Option<nat> {
        Some(self.rest().len())
    }

    open spec fn initial_value_relation(&self, init: &Self) -> bool {
        true
    }

    open spec fn peek(&self, index: int) -> Option<Self::Item> {
        None
    }
}

proof fn lemma_refs_next<T>(a: Seq<T>, b: Seq<T>)
    requires
        a.len() > 0,
        refs::<T>(b) == refs::<T>(a).drop_first(),
    ensures
        b == a.drop_first(),
{
    assert(b.len() == refs::<T>(b).len());
    assert forall|i: int| 0 <= i < b.len() implies b[i] == a.drop_first()[i] by {
        assert(*refs::<T>(b)[i] == b[i]);
        assert(*refs::<T>(a)[i + 1] == a[i + 1]);
        assert(refs::<T>(a).drop_first()[i] == refs::<T>(a)[i + 1]);
    }
    assert(b =~= a.drop_first());
}

/// The elements of a part of a document, in order.
pub struct CompactRangeIter<'a, T> {
    iter: CompactIter<'a, T>,
    skip: usize,
    remaining: usize,
}

impl<'a, T> CompactRangeIter<'a, T> {
    #[verifier::type_invariant]
    spec fn valid(self) -> bool {
        self.skip + self.remaining <= self.iter.rest().len()
    }

    /// The elements that are left.
    pub closed spec fn rest(&self) -> Seq<T> {
        self.iter.rest().subrange(self.skip as int, self.skip + self.remaining)
    }

    fn new(table: &'a CompactPieceTable<T>, start: usize, end: usize) -> (it: Self)
        requires
            table.wf(),
            start <= end <= table@.len(),
        ensures
            it.rest() == table@.subrange(start as int, end as int),
            it.remaining() == refs(table@.subrange(start as int, end as int)),
    {
        CompactRangeIter { iter: CompactIter::new(table), skip: start, remaining: end - start }
    }
}

impl<'a, T> Iterator for CompactRangeIter<'a, T> {
    type Item = &'a T;

    fn next(&mut self) -> (r: Option<Self::Item>) {
        proof {
            use_type_invariant(&*self);
        }
        let ghost before = self.rest();
        proof {
            use_type_invariant(&self.iter);
        }
        let mut iter = CompactIter {
            table: self.iter.table,
            piece_idx: self.iter.piece_idx,
            piece_off: self.iter.piece_off,
        };
        while self.skip > 0
            invariant
                self.valid(),
                self.remaining == old(self).remaining,
                self.skip + self.remaining <= iter.rest().len(),
                iter.rest().subrange(self.skip as int, self.skip + self.remaining) == before,
                before == old(self).rest(),
            decreases self.skip,
        {
            let ghost left = iter.rest();
            iter.next();
            self.skip -= 1;
            proof {
                lemma_refs_next(left, iter.rest());
                assert(iter.rest().subrange(self.skip as int, self.skip + self.remaining) =~= before);
            }
        }
        self.iter = iter;
        if self.remaining == 0 {
            assert(refs::<T>(before) =~= Seq::empty());
            assert(refs::<T>(self.rest()) =~= Seq::empty());
            return None;
        }
        proof {
            use_type_invariant(&self.iter);
        }
        let ghost left = self.iter.rest();
        let mut after = CompactIter {
            table: self.iter.table,
            piece_idx: self.iter.piece_idx,
            piece_off: self.iter.piece_off,
        };
        let item = after.next();
        self.remaining -= 1;
        proof {
            lemma_refs_next(left, after.rest());
        }
        self.iter = after;
        proof {
            assert(self.rest() =~= before.drop_first());
            assert(refs::<T>(self.rest()) =~= refs::<T>(before).drop_first());
            assert(refs::<T>(before)[0] == refs::<T>(left)[0]);
        }
        item
    }
}

impl<'a, T> vstd::std_specs::iter::IteratorSpecImpl for CompactRangeIter<'a, T> {
    open spec fn obeys_prophetic_iter_laws(&self) -> bool {
        true
    }

    closed spec fn remaining(&self) -> Seq<Self::Item> {
        refs(self.rest())
    }

    closed spec fn will_return_none(&self) -> bool {
        true
    }

    closed spec fn decrease(&self) -> Option<nat> {
        Some(self.remaining as nat)
    }

    open spec fn initial_value_relation(&self, init: &Self) -> bool {
        true
    }

    open spec fn peek(&self, index: int) -> Option<Self::Item> {
        None
    }
}

impl<T: Clone + PartialEq> CompactPieceTable<T> {
    /// The elements of the document, in order.
    pub fn iter(&self) -> (it: CompactIter<'_, T>)
        requires
            self.wf(),
        ensures
            it.rest() == self@,
            it.remaining() == refs(self@),
    {
        CompactIter::new(self)
    }

    /// The elements from position `start` up to, but not including, `end`, in order.
    pub fn range(&self, start: usize, end: usize) -> (it: CompactRangeIter<'_, T>)
        requires
            self.wf(),
            start <= end <= self@.len(),
        ensures
            it.rest() == self@.subrange(start as int, end as int),
            it.remaining() == refs(self@.subrange(start as int, end as int)),
    {
        CompactRangeIter::new(self, start, end)
    }
}

} // verus!
