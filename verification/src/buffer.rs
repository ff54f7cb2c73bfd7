//! The interface that the two piece tables share.
use vstd::prelude::*;

use crate::compact::CompactPieceTable;
use crate::content::{inserted, removed};
use crate::defect::{reports, Defect};
use crate::table::PieceTable;

verus! {

/// Stable common API shared by editable text backends in this crate.
pub trait TextBuffer<T: Clone + PartialEq> {
    /// The elements of the document.
    spec fn content(&self) -> Seq<T>;

    /// Whether the buffer is in a state that its operations keep.
    spec fn valid(&self) -> bool;

    /// Whether the records of the buffer can be checked.
    spec fn checkable(&self) -> bool;

    /// What is wrong with the records of the buffer.
    spec fn fault(&self) -> Option<Defect>;

    /// A valid buffer can be checked, and nothing is wrong with it.
    proof fn lemma_faultless(&self)
        requires
            self.valid(),
        ensures
            self.checkable(),
            self.fault() is None,
    ;

    fn len(&self) -> (n: usize)
        requires
            self.valid(),
        ensures
            n == self.content().len(),
    ;

    fn is_empty(&self) -> (b: bool)
        requires
            self.valid(),
        ensures
            b == (self.content().len() == 0),
    ;

    fn insert(&mut self, pos: usize, data: &[T])
        requires
            old(self).valid(),
            pos <= old(self).content().len(),
            old(self).content().len() + data@.len() <= usize::MAX,
        ensures
            final(self).valid(),
            inserted(old(self).content(), pos as int, data@, final(self).content()),
    ;

    fn delete(&mut self, pos: usize, len: usize)
        requires
            old(self).valid(),
            pos <= old(self).content().len(),
            len <= old(self).content().len() - pos,
        ensures
            final(self).valid(),
            final(self).content() == removed(old(self).content(), pos as int, len as int),
    ;

    fn get(&self, index: usize) -> (r: Option<&T>)
        requires
            self.valid(),
        ensures
            r == (if index < self.content().len() {
                Some(&self.content()[index as int])
            } else {
                None
            }),
    ;

    fn validate(&self) -> (r: Result<(), String>)
        requires
            self.valid() || self.checkable(),
        ensures
            reports(r, self.fault()),
            self.valid() ==> r is Ok,
    ;
}

impl<T: Clone + PartialEq> TextBuffer<T> for PieceTable<T> {
    open spec fn content(&self) -> Seq<T> {
        self@
    }

    open spec fn valid(&self) -> bool {
        self.wf()
    }

    open spec fn checkable(&self) -> bool {
        self.countable()
    }

    open spec fn fault(&self) -> Option<Defect> {
        self.defect()
    }

    proof fn lemma_faultless(&self) {
        self.lemma_valid();
    }

    fn len(&self) -> usize {
        PieceTable::len(self)
    }

    fn is_empty(&self) -> bool {
        PieceTable::is_empty(self)
    }

    fn insert(&mut self, pos: usize, data: &[T]) {
        PieceTable::insert(self, pos, data)
    }

    fn delete(&mut self, pos: usize, len: usize) {
        PieceTable::delete(self, pos, len)
    }

    fn get(&self, index: usize) -> Option<&T> {
        PieceTable::get(self, index)
    }

    fn validate(&self) -> Result<(), String> {
        PieceTable::validate(self)
    }
}

impl<T: Clone + PartialEq> TextBuffer<T> for CompactPieceTable<T> {
    open spec fn content(&self) -> Seq<T> {
        self@
    }

    open spec fn valid(&self) -> bool {
        self.wf()
    }

    open spec fn checkable(&self) -> bool {
        self.countable()
    }

    open spec fn fault(&self) -> Option<Defect> {
        self.defect()
    }

    proof fn lemma_faultless(&self) {
        self.lemma_valid();
    }

    fn len(&self) -> usize {
        CompactPieceTable::len(self)
    }

    fn is_empty(&self) -> bool {
        CompactPieceTable::is_empty(self)
    }

    fn insert(&mut self, pos: usize, data: &[T]) {
        CompactPieceTable::insert(self, pos, data)
    }

    fn delete(&mut self, pos: usize, len: usize) {
        CompactPieceTable::delete(self, pos, len)
    }

    fn get(&self, index: usize) -> Option<&T> {
        CompactPieceTable::get(self, index)
    }

    fn validate(&self) -> Result<(), String> {
        CompactPieceTable::validate(self)
    }
}

} // verus!
