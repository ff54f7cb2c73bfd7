//! The compact piece table.
use vstd::prelude::*;

use crate::content::{
    holds_run, inserted, lemma_cut_text, lemma_fused_equal, lemma_fused_holds, lemma_fused_kept,
    lemma_fused_text, lemma_grown_run, lemma_holds_run, lemma_settled_equal, lemma_splice_holds,
    lemma_splice_run, removed, text, within,
};
use crate::defect::{
    check_pieces, lemma_pieces_clear, lemma_pieces_right, pieces_fault, report, reports, Defect,
};
use crate::document::{lemma_cut_settled_but, lemma_heads_spliced};
use crate::edit::{ends_at, grown, lemma_heads_grown, lemma_heads_seam};
use crate::index::{
    build_index, find_in_index, index_height, index_ok, lemma_levels_small, lemma_node_sound,
    levels_for, node_len, CompactNode, CompactNodeId,
};
use crate::list::{leaf_delete_range, leaf_insert_piece, one_if, pieces_len};
use crate::piece::{
    all_ordered, all_sound, coherent, cut, distinct, fused, heads, inside, joined, lemma_heads_of,
    lemma_marks_coherent, lemma_marks_one, lemma_marks_opens, lemma_tidy_settled, marks_of, opens,
    run, settled, splice, BufferKind, Mark, Piece,
};
use crate::stats::Stats;

verus! {

/// Compact index-arena backend using node IDs instead of pointer-linked ownership.
#[derive(Debug)]
pub struct CompactPieceTable<T> {
    pub(crate) original: Vec<T>,
    pub(crate) add: Vec<T>,
    pub(crate) pieces: Vec<Piece>,
    pub(crate) nodes: Vec<CompactNode>,
    pub(crate) root: Option<CompactNodeId>,
    pub(crate) total_len: usize,
}

impl<T> View for CompactPieceTable<T> {
    type V = Seq<T>;

    /// The elements of the document.
    open(crate) spec fn view(&self) -> Seq<T> {
        text(self.marks(), self.original@, self.add@)
    }
}

impl<T> CompactPieceTable<T> {
    /// The marks of the pieces of the document, in order.
    pub open(crate) spec fn marks(&self) -> Seq<Mark> {
        marks_of(self.pieces@)
    }

    /// How many pieces the document is made of.
    pub open(crate) spec fn parts(&self) -> nat {
        self.pieces@.len()
    }

    /// The pieces of the document, in order.
    pub open(crate) spec fn listed(&self) -> Seq<Piece> {
        self.pieces@
    }

    /// The number of elements that the root of the index records, if there is a root.
    pub open(crate) spec fn indexed_len(&self) -> Option<usize> {
        match self.root {
            Some(r) => Some(self.nodes@[r as int].span()),
            None => None,
        }
    }

    /// How many elements were ever inserted.
    pub open(crate) spec fn added(&self) -> nat {
        self.add@.len()
    }

    /// Whether position `pos` is inside a piece.
    pub open(crate) spec fn splits(&self, pos: int) -> bool {
        inside(self.marks(), pos)
    }

    /// Whether a piece ends before position `pos` that the next element to be inserted would
    /// continue.
    pub open(crate) spec fn extends(&self, pos: int) -> bool {
        ends_at(self.marks(), pos, BufferKind::Add, self.add@.len() as int)
    }

    /// How many pieces are left once `len` elements from `pos` on are taken out.
    pub open(crate) spec fn parts_without(&self, pos: int, len: int) -> int {
        heads(cut(self.marks(), pos, len)) - one_if(joined(cut(self.marks(), pos, len), pos))
    }

    /// Validity: no piece is empty, the recorded length is right, every piece lies within its
    /// buffer, no two neighbouring pieces could be one, no element of a buffer is in the document
    /// twice, and the index is a valid one over the pieces.
    pub open(crate) spec fn wf(&self) -> bool {
        &&& self.wf_document()
        &&& index_ok(self.nodes@, self.root, self.pieces@)
    }

    pub(crate) open spec fn wf_document(&self) -> bool {
        &&& all_sound(self.pieces@)
        &&& self.total_len == self.marks().len()
        &&& within(self.marks(), self.original@.len() as int, self.add@.len() as int)
        &&& settled(self.marks())
        &&& distinct(self.marks())
    }

    /// The lengths of the pieces can be added up: none ends before it begins, and the sum is a
    /// `usize`. The index has a node where its root is said to be.
    pub open(crate) spec fn countable(&self) -> bool {
        &&& all_ordered(self.pieces@)
        &&& self.marks().len() <= usize::MAX
        &&& self.root matches Some(r) ==> r < self.nodes@.len()
    }

    /// What is wrong with the records of the table.
    pub open(crate) spec fn defect(&self) -> Option<Defect> {
        if self.marks().len() != self.total_len {
            Some(Defect::PieceSum { sum: self.marks().len() as usize, total: self.total_len })
        } else {
            match pieces_fault(
                self.pieces@,
                self.original@.len() as int,
                self.add@.len() as int,
            ) {
                Some(d) => Some(d),
                None => match self.root {
                    Some(r) => if self.nodes@[r as int].span() == self.total_len {
                        None
                    } else {
                        Some(
                            Defect::IndexLength {
                                index: self.nodes@[r as int].span(),
                                total: self.total_len,
                            },
                        )
                    },
                    None => if self.total_len == 0 {
                        None
                    } else {
                        Some(Defect::MissingRoot)
                    },
                },
            }
        }
    }

    /// A valid table can be checked, and nothing is found to be wrong with it.
    pub proof fn lemma_valid(&self)
        requires
            self.wf(),
        ensures
            self.countable(),
            self.defect() is None,
    {
        lemma_pieces_right(self.pieces@, self.original@.len() as int, self.add@.len() as int);
        lemma_marks_opens(self.pieces@);
        match self.root {
            Some(r) => {
                lemma_node_sound(self.nodes@, r as int, levels_for(self.pieces@.len()));
            },
            None => {},
        }
    }
}

impl<T> CompactPieceTable<T> {
    /// How many elements the document began with.
    pub open(crate) spec fn original_len(&self) -> nat {
        self.original@.len()
    }

    /// The recorded number of elements.
    pub open(crate) spec fn recorded_len(&self) -> usize {
        self.total_len
    }

    /// Where nothing is found to be wrong, the recorded length is right, every piece lies within
    /// its buffer, and no two neighbouring pieces could be one.
    pub proof fn lemma_no_defect(&self)
        requires
            self.countable(),
            self.defect() is None,
        ensures
            self.recorded_len() == self.marks().len(),
            within(self.marks(), self.original_len() as int, self.added() as int),
            settled(self.marks()),
    {
        lemma_pieces_clear(self.pieces@, self.original@.len() as int, self.add@.len() as int);
    }
}

impl<T: Clone + PartialEq> CompactPieceTable<T> {
    pub fn new(initial: Vec<T>) -> (table: Self)
        ensures
            table.wf(),
            table@ == initial@,
            table.added() == 0,
            table.parts() == one_if(initial@.len() > 0),
    {
        let total_len = initial.len();
        let ghost m = (Piece { buffer: BufferKind::File, start: 0, end: total_len }).marks();
        let mut pieces: Vec<Piece> = Vec::new();
        if total_len > 0 {
            let piece = Piece { buffer: BufferKind::File, start: 0, end: total_len };
            pieces.push(piece);
            proof {
                assert(pieces@ =~= seq![piece]);
                lemma_marks_one(piece);
            }
        }
        let mut table = CompactPieceTable {
            original: initial,
            add: Vec::new(),
            pieces,
            nodes: Vec::new(),
            root: None,
            total_len,
        };
        proof {
            assert(marks_of(table.pieces@) =~= m);
            assert(table@ =~= initial@);
        }
        table.rebuild_index();
        table
    }

    pub fn len(&self) -> (n: usize)
        requires
            self.wf(),
        ensures
            n == self@.len(),
    {
        self.total_len
    }

    pub fn is_empty(&self) -> (b: bool)
        requires
            self.wf(),
        ensures
            b == (self@.len() == 0),
    {
        self.total_len == 0
    }

    /// The number of levels of the index.
    pub fn height(&self) -> (n: usize)
        requires
            self.wf(),
        ensures
            n == levels_for(self.parts()),
    {
        match self.root {
            None => 0,
            Some(root) => {
                proof {
                    lemma_levels_small(self.pieces@.len());
                    assert(self.pieces.len() <= usize::MAX);
                }
                let ghost h = levels_for(self.pieces@.len());
                index_height(&self.nodes, root, Ghost(h))
            },
        }
    }

    /// Puts clones of the elements of `data` in before position `pos`.
    pub fn insert(&mut self, pos: usize, data: &[T])
        requires
            old(self).wf(),
            pos <= old(self)@.len(),
            old(self)@.len() + data@.len() <= usize::MAX,
        ensures
            final(self).wf(),
            inserted(old(self)@, pos as int, data@, final(self)@),
            final(self).added() == old(self).added() + data@.len(),
            data@.len() == 0 ==> *final(self) == *old(self),
            data@.len() > 0 ==> final(self).parts() == old(self).parts() + (if old(self).extends(
                pos as int,
            ) {
                0
            } else {
                1 + one_if(old(self).splits(pos as int))
            }),
            data@.len() > 0 ==> holds_run(
                old(self).marks(),
                pos as int,
                old(self).added() as int,
                (old(self).added() + data@.len()) as int,
                final(self).marks(),
            ),
    {
        if data.len() == 0 {
            return;
        }
        let ghost m = self.marks();
        let ghost held = self.add@;
        let start = self.add.len();
        self.add.extend_from_slice(data);
        let end = self.add.len();
        self.insert_piece_at(pos, start, end);
        proof {
            lemma_holds_run(m, pos as int, self.marks(), self.original@, held, self.add@, data@);
        }
        self.total_len += data.len();
        self.rebuild_index();
    }

    /// Puts the elements of the add buffer from `start` up to `end` into the list before element
    /// `pos`, as a piece that is then merged with the one before it if it continues that.
    fn insert_piece_at(&mut self, pos: usize, start: usize, end: usize)
        requires
            all_sound(old(self).pieces@),
            settled(old(self).marks()),
            pos <= old(self).marks().len() <= usize::MAX,
            start < end,
            exists|file_len: int| within(old(self).marks(), file_len, start as int),
        ensures
            final(self).original == old(self).original,
            final(self).add == old(self).add,
            final(self).nodes == old(self).nodes,
            final(self).root == old(self).root,
            final(self).total_len == old(self).total_len,
            all_sound(final(self).pieces@),
            settled(final(self).marks()),
            holds_run(old(self).marks(), pos as int, start as int, end as int, final(self).marks()),
            final(self).pieces@.len() == old(self).pieces@.len() + (if ends_at(
                old(self).marks(),
                pos as int,
                BufferKind::Add,
                start as int,
            ) {
                0
            } else {
                1 + one_if(inside(old(self).marks(), pos as int))
            }),
    {
        let ghost ps = self.pieces@;
        let piece = Piece { buffer: BufferKind::Add, start, end };
        let mut uncounted = Stats::default();
        leaf_insert_piece(&mut self.pieces, pos, piece, &mut uncounted);
        proof {
            lemma_inserted_piece(ps, pos as int, start as int, end as int, self.pieces@);
        }
    }

    /// Takes the `len` elements from position `pos` on out.
    pub fn delete(&mut self, pos: usize, len: usize)
        requires
            old(self).wf(),
            pos <= old(self)@.len(),
            len <= old(self)@.len() - pos,
        ensures
            final(self).wf(),
            final(self)@ == removed(old(self)@, pos as int, len as int),
            final(self).added() == old(self).added(),
            len == 0 ==> *final(self) == *old(self),
            len > 0 ==> final(self).parts() == old(self).parts_without(pos as int, len as int),
            len > 0 ==> fused(
                cut(old(self).marks(), pos as int, len as int),
                final(self).marks(),
            ),
    {
        if len == 0 {
            assert(removed(self@, pos as int, 0) =~= self@);
            return;
        }
        let ghost ps = self.pieces@;
        let ghost m = self.marks();
        let ghost c = cut(m, pos as int, len as int);
        let mut uncounted = Stats::default();
        leaf_delete_range(&mut self.pieces, pos, len, &mut uncounted);
        proof {
            lemma_deleted_pieces(ps, pos as int, len as int, self.pieces@);
            lemma_cut_text(m, pos as int, len as int, self.original@, self.add@);
            lemma_fused_text(c, self.marks(), self.original@, self.add@);
            lemma_fused_kept(
                c,
                self.marks(),
                self.original@.len() as int,
                self.add@.len() as int,
            );
        }
        self.total_len -= len;
        self.rebuild_index();
    }

    /// Builds the index anew.
    fn rebuild_index(&mut self)
        requires
            all_sound(old(self).pieces@),
            old(self).marks().len() <= usize::MAX,
        ensures
            final(self).original == old(self).original,
            final(self).add == old(self).add,
            final(self).pieces == old(self).pieces,
            final(self).total_len == old(self).total_len,
            index_ok(final(self).nodes@, final(self).root, final(self).pieces@),
    {
        self.nodes.clear();
        self.root = build_index(&mut self.nodes, &self.pieces);
    }

    /// The element at `index`.
    pub fn get(&self, index: usize) -> (r: Option<&T>)
        requires
            self.wf(),
        ensures
            r == (if index < self@.len() {
                Some(&self@[index as int])
            } else {
                None
            }),
    {
        if index >= self.total_len {
            return None;
        }
        match self.root {
            None => None,
            Some(root) => {
                let ghost h = levels_for(self.pieces@.len());
                match find_in_index(&self.nodes, root, index, 0, Ghost(h)) {
                    None => None,
                    Some((piece, offset, start)) => {
                        proof {
                            let m = self.marks();
                            let end = start + (piece.end - piece.start);
                            assert(m[index as int] == m.subrange(start as int, end)[offset as int]);
                            assert(m[index as int] == piece.marks()[offset as int]);
                            assert(0 <= m[index as int].at);
                            assert(self.original.len() <= usize::MAX);
                            assert(self.add.len() <= usize::MAX);
                        }
                        let buf_idx = piece.start + offset;
                        Some(
                            match piece.buffer {
                                BufferKind::File => &self.original[buf_idx],
                                BufferKind::Add => &self.add[buf_idx],
                            },
                        )
                    },
                }
            },
        }
    }

    /// Checks the records of the table.
    pub fn validate(&self) -> (r: Result<(), String>)
        requires
            self.wf() || self.countable(),
        ensures
            reports(r, self.defect()),
            self.wf() ==> r is Ok,
    {
        proof {
            if self.wf() {
                self.lemma_valid();
            }
        }
        report(self.find_defect())
    }

    fn find_defect(&self) -> (r: Option<Defect>)
        requires
            self.countable(),
        ensures
            r == self.defect(),
    {
        let sum = pieces_len(&self.pieces);
        if sum != self.total_len {
            return Some(Defect::PieceSum { sum, total: self.total_len });
        }
        let fault = check_pieces(&self.pieces, self.original.len(), self.add.len());
        if fault.is_some() {
            return fault;
        }
        match self.root {
            Some(root) => {
                let index = node_len(&self.nodes, root);
                if index != self.total_len {
                    Some(Defect::IndexLength { index, total: self.total_len })
                } else {
                    None
                }
            },
            None => if self.total_len != 0 {
                Some(Defect::MissingRoot)
            } else {
                None
            },
        }
    }
}

/// What a list of pieces becomes when a piece of new elements is put in.
proof fn lemma_inserted_piece(ps: Seq<Piece>, pos: int, start: int, end: int, qs: Seq<Piece>)
    requires
        all_sound(ps),
        settled(marks_of(ps)),
        0 <= pos <= marks_of(ps).len(),
        start < end,
        exists|file_len: int| within(marks_of(ps), file_len, start),
        all_sound(qs),
        settled(marks_of(qs)),
        fused(splice(marks_of(ps), pos, run(BufferKind::Add, start, end, true)), marks_of(qs)),
    ensures
        holds_run(marks_of(ps), pos, start, end, marks_of(qs)),
        qs.len() == ps.len() + (if ends_at(marks_of(ps), pos, BufferKind::Add, start) {
            0
        } else {
            1 + one_if(inside(marks_of(ps), pos))
        }),
{
    let m = marks_of(ps);
    let n = marks_of(qs);
    let s = splice(m, pos, run(BufferKind::Add, start, end, true));
    lemma_splice_holds(m, pos, start, end);
    lemma_fused_holds(m, pos, start, end, s, n);
    lemma_heads_of(ps);
    lemma_heads_of(qs);
    lemma_marks_opens(ps);
    lemma_marks_opens(qs);
    lemma_marks_coherent(ps);
    lemma_marks_coherent(qs);
    if ends_at(m, pos, BufferKind::Add, start) {
        let g = grown(m, pos, BufferKind::Add, start, end);
        lemma_grown_run(m, pos, start, end);
        lemma_grown_coherent(m, pos, start, end);
        assert(g[0] == m[0]);
        assert forall|k: int| 0 <= k < g.len() implies (#[trigger] g[k]).buffer == n[k].buffer
            && g[k].at == n[k].at by {
            assert(n[k].at == n[k].at);
        }
        lemma_settled_equal(g, n);
        lemma_heads_grown(m, pos, BufferKind::Add, start, end);
    } else {
        lemma_splice_run(m, pos, start, end);
        assert(opens(s)) by {
            if pos > 0 {
                assert(s[0] == m[0]);
            }
        }
        lemma_fused_equal(s, n);
        lemma_heads_spliced(m, pos, start, end);
    }
}

proof fn lemma_grown_coherent(m: Seq<Mark>, pos: int, start: int, end: int)
    requires
        coherent(m),
        ends_at(m, pos, BufferKind::Add, start),
        start < end,
    ensures
        coherent(grown(m, pos, BufferKind::Add, start, end)),
{
    let x = run(BufferKind::Add, start, end, false);
    let s = grown(m, pos, BufferKind::Add, start, end);
    let n = end - start;
    assert forall|k: int| 0 < k < s.len() && !(#[trigger] s[k]).head implies joined(s, k) by {
        if k < pos {
            assert(s[k] == m[k]);
            assert(s[k - 1] == m[k - 1]);
            assert(joined(m, k));
        } else if k < pos + n {
            assert(s[k] == x[k - pos]);
            if k > pos {
                assert(s[k - 1] == x[k - 1 - pos]);
            } else {
                assert(s[k - 1] == m[k - 1]);
            }
        } else {
            assert(s[k] == m[k - n]);
            assert(k > pos + n);
            assert(s[k - 1] == m[k - 1 - n]);
            assert(joined(m, k - n));
        }
    }
}

/// What a list of pieces becomes when elements are taken out.
proof fn lemma_deleted_pieces(ps: Seq<Piece>, pos: int, len: int, qs: Seq<Piece>)
    requires
        all_sound(ps),
        settled(marks_of(ps)),
        0 <= pos,
        0 < len,
        pos + len <= marks_of(ps).len(),
        all_sound(qs),
        crate::piece::tidy(qs),
        fused(cut(marks_of(ps), pos, len), marks_of(qs)),
    ensures
        settled(marks_of(qs)),
        qs.len() == heads(cut(marks_of(ps), pos, len)) - one_if(
            joined(cut(marks_of(ps), pos, len), pos),
        ),
{
    lemma_tidy_settled(qs);
    lemma_heads_of(qs);
    lemma_marks_opens(ps);
    lemma_marks_opens(qs);
    lemma_marks_coherent(qs);
    lemma_cut_settled_but(marks_of(ps), pos, len, marks_of(qs));
    lemma_heads_seam(cut(marks_of(ps), pos, len), marks_of(qs), pos);
}

impl<T: Default> Default for CompactPieceTable<T> {
    fn default() -> (table: Self)
        ensures
            table.wf(),
            table@ == Seq::<T>::empty(),
            table.added() == 0,
            table.parts() == 0,
    {
        let table = CompactPieceTable {
            original: Vec::new(),
            add: Vec::new(),
            pieces: Vec::new(),
            nodes: Vec::new(),
            root: None,
            total_len: 0,
        };
        assert(table@ =~= Seq::empty());
        table
    }
}

} // verus!
