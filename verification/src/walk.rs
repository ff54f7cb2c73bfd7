//! Going through the pieces of a tree in order.
use vstd::prelude::*;

use crate::content::{text, within};
use crate::defect::{flat_all, lemma_flat_all_marks, lemma_node_right};
use crate::document::lemma_tree_marks;
use crate::piece::{
    all_sound, lemma_marks_add, lemma_marks_at, lemma_marks_opens, lemma_marks_prefix, marks_of,
    BufferKind, Mark, Piece,
};
use crate::table::{AccessCache, PieceTable};
use crate::tree::{
    kids_wf, lemma_all_at, lemma_all_prefix, lemma_tall, lies_at, marks_all, size_all, BNode, Tree,
};

verus! {

/// The pieces of a tree, in order.
pub open spec fn tree_flat(t: Tree) -> Seq<Piece> {
    match t {
        Some(n) => n.flat(),
        None => Seq::empty(),
    }
}

/// Piece `i` of `ps`, placed in a document of which these pieces begin at `base`.
pub(crate) open spec fn placement(ps: Seq<Piece>, base: int, i: int) -> AccessCache {
    AccessCache {
        piece_start: (base + marks_of(ps.take(i)).len()) as usize,
        piece_end: (base + marks_of(ps.take(i + 1)).len()) as usize,
        buffer: ps[i].buffer,
        buffer_start: ps[i].start,
    }
}

pub(crate) open spec fn placements_of(ps: Seq<Piece>, base: int) -> Seq<AccessCache> {
    Seq::new(ps.len(), |i: int| placement(ps, base, i))
}

proof fn lemma_placements_add(a: Seq<Piece>, b: Seq<Piece>, base: int)
    ensures
        placements_of(a + b, base) == placements_of(a, base) + placements_of(
            b,
            base + marks_of(a).len(),
        ),
{
    let l = placements_of(a + b, base);
    let r = placements_of(a, base) + placements_of(b, base + marks_of(a).len());
    assert forall|i: int| 0 <= i < l.len() implies l[i] == #[trigger] r[i] by {
        if i < a.len() {
            assert((a + b).take(i) =~= a.take(i));
            assert((a + b).take(i + 1) =~= a.take(i + 1));
        } else {
            let j = i - a.len();
            assert((a + b).take(i) =~= a + b.take(j));
            assert((a + b).take(i + 1) =~= a + b.take(j + 1));
            lemma_marks_add(a, b.take(j));
            lemma_marks_add(a, b.take(j + 1));
        }
    }
    assert(l =~= r);
}

/// A placed piece lies where it is placed.
pub(crate) proof fn lemma_placement(ps: Seq<Piece>, i: int)
    requires
        all_sound(ps),
        0 <= i < ps.len(),
    ensures
        lies_at(marks_of(ps), ps[i], marks_of(ps.take(i)).len() as int),
        marks_of(ps.take(i)).len() + (ps[i].end - ps[i].start) == marks_of(ps.take(i + 1)).len(),
{
    let m = marks_of(ps);
    let start = marks_of(ps.take(i)).len() as int;
    let end = start + (ps[i].end - ps[i].start);
    assert(ps[i].sound());
    lemma_marks_at(ps, i);
    assert(m.subrange(start, end) =~= ps[i].marks());
    assert(m.skip(end) =~= marks_of(ps.skip(i + 1)));
    assert forall|k: int| 0 <= k < ps.skip(i + 1).len() implies (#[trigger] ps.skip(i + 1)[k]).sound() by {
        assert(ps[i + 1 + k].sound());
    }
    lemma_marks_opens(ps.skip(i + 1));
}

/// The pieces of a valid table are sound, and make up the document.
pub(crate) proof fn lemma_tree_pieces<T>(table: &PieceTable<T>)
    requires
        table.wf(),
    ensures
        all_sound(tree_flat(table.root)),
        marks_of(tree_flat(table.root)) == table.marks(),
{
    lemma_tree_marks(table.root);
    match table.root {
        Some(n) => {
            lemma_node_right(*n, n.tall());
        },
        None => {},
    }
}

/// Appends the placed pieces below `node`, of which the first begins at `base`, to `out`.
fn place(node: &BNode, base: usize, out: &mut Vec<AccessCache>, Ghost(h): Ghost<nat>)
    requires
        node.wf(h),
        base + node.span() <= usize::MAX,
    ensures
        final(out)@ == old(out)@ + placements_of(node.flat(), base as int),
    decreases h,
{
    proof {
        lemma_node_right(*node, h);
    }
    match node {
        BNode::Leaf { pieces, .. } => {
            let mut offset: usize = 0;
            for i in 0..pieces.len()
                invariant
                    all_sound(pieces@),
                    base + marks_of(pieces@).len() <= usize::MAX,
                    offset == marks_of(pieces@.take(i as int)).len(),
                    out@ == old(out)@ + placements_of(pieces@.take(i as int), base as int),
            {
                let piece = &pieces[i];
                let ghost front = pieces@.take(i as int);
                proof {
                    lemma_marks_prefix(pieces@, i as int);
                    assert(pieces@.take(i + 1) =~= front + seq![*piece]);
                    lemma_placements_add(front, seq![*piece], base as int);
                    assert(seq![*piece].take(0) =~= Seq::empty());
                    assert(seq![*piece].take(1) =~= seq![*piece]);
                    crate::piece::lemma_marks_one(*piece);
                }
                let start = base + offset;
                out.push(
                    AccessCache {
                        piece_start: start,
                        piece_end: start + piece.len(),
                        buffer: piece.buffer,
                        buffer_start: piece.start,
                    },
                );
                assert(out@ =~= old(out)@ + placements_of(pieces@.take(i + 1), base as int));
                offset += piece.len();
            }
            assert(pieces@.take(pieces@.len() as int) =~= pieces@);
        },
        BNode::Internal { children, .. } => {
            let ghost k = (h - 1) as nat;
            let mut offset: usize = 0;
            for i in 0..children.len()
                invariant
                    node.wf(h),
                    node matches BNode::Internal { children: c, .. } && c == children,
                    k == h - 1,
                    h > 0,
                    kids_wf(children@, k),
                    base + marks_all(children@).len() <= usize::MAX,
                    offset == marks_all(children@.take(i as int)).len(),
                    out@ == old(out)@ + placements_of(
                        flat_all(children@.take(i as int)),
                        base as int,
                    ),
            {
                let child = &children[i];
                let ghost front = children@.take(i as int);
                proof {
                    lemma_all_prefix(children@, i as int, k);
                    assert(children@.take(i + 1).drop_last() =~= front);
                    lemma_flat_all_marks(front);
                    lemma_placements_add(flat_all(front), child.flat(), base as int);
                }
                place(child, base + offset, out, Ghost(k));
                assert(out@ =~= old(out)@ + placements_of(
                    flat_all(children@.take(i + 1)),
                    base as int,
                ));
                offset += child.len();
            }
            assert(children@.take(children@.len() as int) =~= children@);
        },
    }
}

impl<T> PieceTable<T> {
    /// The pieces of the document in order, each with the positions that it covers.
    pub(crate) fn placements(&self) -> (out: Vec<AccessCache>)
        requires
            self.wf(),
        ensures
            out@ == placements_of(tree_flat(self.root), 0),
    {
        let mut out: Vec<AccessCache> = Vec::new();
        proof {
            lemma_tree_marks(self.root);
        }
        match &self.root {
            Some(root) => {
                let ghost h = root.tall();
                place(root, 0, &mut out, Ghost(h));
            },
            None => {},
        }
        assert(out@ =~= placements_of(tree_flat(self.root), 0));
        out
    }
}

/// A list of nodes of which those from `next` on are still to be visited.
pub(crate) struct Frame<'a> {
    pub(crate) children: &'a Vec<Box<BNode>>,
    pub(crate) next: usize,
}

impl<'a> Frame<'a> {
    pub(crate) open spec fn ok(self) -> bool {
        &&& 0 < self.children@.len()
        &&& self.next <= self.children@.len()
        &&& kids_wf(self.children@, self.children@[0].tall())
    }

    /// The nodes still to be visited.
    pub(crate) open spec fn left(self) -> Seq<Box<BNode>> {
        self.children@.skip(self.next as int)
    }
}

pub(crate) open spec fn frames_ok(stack: Seq<Frame>) -> bool {
    forall|i: int| 0 <= i < stack.len() ==> (#[trigger] stack[i]).ok()
}

/// The marks of the pieces still to be visited, the last list first.
pub(crate) open spec fn stack_marks(stack: Seq<Frame>) -> Seq<Mark>
    decreases stack.len(),
{
    if stack.len() == 0 {
        Seq::empty()
    } else {
        marks_all(stack.last().left()) + stack_marks(stack.drop_last())
    }
}

/// How many nodes are still to be visited.
pub(crate) open spec fn stack_nodes(stack: Seq<Frame>) -> nat
    decreases stack.len(),
{
    if stack.len() == 0 {
        0
    } else {
        size_all(stack.last().left()) + stack_nodes(stack.drop_last())
    }
}

/// A place in a document, from which one can go on to its end.
pub(crate) struct Walk<'a, T> {
    pub(crate) table: &'a PieceTable<T>,
    pub(crate) stack: Vec<Frame<'a>>,
    pub(crate) current_leaf: Option<&'a Vec<Piece>>,
    pub(crate) piece_idx: usize,
    pub(crate) offset_in_piece: usize,
}

impl<'a, T> Walk<'a, T> {
    /// The marks that are left in the current leaf.
    pub(crate) open spec fn leaf_marks(&self) -> Seq<Mark> {
        match self.current_leaf {
            None => Seq::empty(),
            Some(ps) => marks_of(ps@.skip(self.piece_idx as int)).skip(self.offset_in_piece as int),
        }
    }

    /// The marks that are left.
    pub(crate) open spec fn rest_marks(&self) -> Seq<Mark> {
        self.leaf_marks() + stack_marks(self.stack@)
    }

    /// The elements that are left.
    pub(crate) open spec fn rest(&self) -> Seq<T> {
        text(self.rest_marks(), self.table.original@, self.table.add@)
    }

    /// The place in the current leaf is a place in a piece, or the end.
    pub(crate) open spec fn leaf_ok(&self) -> bool {
        match self.current_leaf {
            None => self.stack@.len() == 0,
            Some(ps) => {
                &&& all_sound(ps@)
                &&& self.piece_idx <= ps@.len()
                &&& self.piece_idx < ps@.len() ==> self.offset_in_piece <= ps@[self.piece_idx as int].end
                    - ps@[self.piece_idx as int].start
                &&& self.piece_idx == ps@.len() ==> self.offset_in_piece == 0
            },
        }
    }

    pub(crate) open spec fn wf(&self) -> bool {
        &&& frames_ok(self.stack@)
        &&& self.leaf_ok()
        &&& within(
            self.rest_marks(),
            self.table.original@.len() as int,
            self.table.add@.len() as int,
        )
    }

    /// A place from which nothing is left.
    pub(crate) fn nowhere(table: &'a PieceTable<T>) -> (w: Self)
        ensures
            w.wf(),
            w.rest() == Seq::<T>::empty(),
            w.table == table,
    {
        let w = Walk {
            table,
            stack: Vec::new(),
            current_leaf: None,
            piece_idx: 0,
            offset_in_piece: 0,
        };
        assert(w.rest_marks() =~= Seq::empty());
        assert(w.rest() =~= Seq::empty());
        w
    }

    /// The beginning of a document.
    pub(crate) fn start(table: &'a PieceTable<T>) -> (w: Self)
        requires
            table.wf(),
        ensures
            w.wf(),
            w.rest() == table@,
            w.table == table,
    {
        let mut w = Walk {
            table,
            stack: Vec::new(),
            current_leaf: None,
            piece_idx: 0,
            offset_in_piece: 0,
        };
        proof {
            lemma_tree_marks(table.root);
        }
        match &table.root {
            Some(root) => {
                let ghost h = root.tall();
                w.descend_left(root, Ghost(h));
            },
            None => {},
        }
        assert(w.rest_marks() =~= table.marks());
        w
    }

    /// Goes to the first leaf below `node`.
    fn descend_left(&mut self, node: &'a BNode, Ghost(h): Ghost<nat>)
        requires
            node.wf(h),
            frames_ok(old(self).stack@),
        ensures
            final(self).table == old(self).table,
            frames_ok(final(self).stack@),
            final(self).current_leaf is Some,
            final(self).leaf_ok(),
            final(self).rest_marks() == node.marks() + stack_marks(old(self).stack@),
            stack_nodes(final(self).stack@) < stack_nodes(old(self).stack@) + node.size(),
    {
        let mut at = node;
        let ghost mut k = h;
        let ghost whole = node.marks() + stack_marks(self.stack@);
        let ghost all = stack_nodes(self.stack@) + node.size();
        loop
            invariant
                self.table == old(self).table,
                at.wf(k),
                frames_ok(self.stack@),
                at.marks() + stack_marks(self.stack@) == whole,
                at.size() + stack_nodes(self.stack@) <= all,
                whole == node.marks() + stack_marks(old(self).stack@),
                all == stack_nodes(old(self).stack@) + node.size(),
            decreases k,
        {
            match at {
                BNode::Leaf { pieces, .. } => {
                    self.current_leaf = Some(pieces);
                    self.piece_idx = 0;
                    self.offset_in_piece = 0;
                    proof {
                        assert(pieces@.skip(0) =~= pieces@);
                        assert(marks_of(pieces@).skip(0) =~= marks_of(pieces@));
                        if pieces@.len() > 0 {
                            assert(pieces@[0].sound());
                        }
                    }
                    return;
                },
                BNode::Internal { children, .. } => {
                    let ghost before = self.stack@;
                    let frame = Frame { children, next: 1 };
                    self.stack.push(frame);
                    proof {
                        let first = children@[0];
                        assert(first.wf((k - 1) as nat));
                        lemma_tall(*first, (k - 1) as nat);
                        lemma_all_at(children@, 0);
                        assert(children@.skip(0) =~= children@);
                        assert(children@.take(0) =~= Seq::empty());
                        assert(self.stack@.drop_last() =~= before);
                        assert(frame.ok());
                        assert forall|i: int|
                            0 <= i < self.stack@.len() implies (#[trigger] self.stack@[i]).ok() by {
                            if i < before.len() {
                                assert(before[i].ok());
                            }
                        }
                        assert(first.marks() + stack_marks(self.stack@) =~= whole);
                        k = (k - 1) as nat;
                    }
                    at = &children[0];
                },
            }
        }
    }

    /// Goes to the next leaf, if there is one.
    fn advance_leaf(&mut self) -> (more: bool)
        requires
            frames_ok(old(self).stack@),
        ensures
            final(self).table == old(self).table,
            frames_ok(final(self).stack@),
            final(self).leaf_ok(),
            final(self).rest_marks() == stack_marks(old(self).stack@),
            more ==> final(self).current_leaf is Some && stack_nodes(final(self).stack@)
                < stack_nodes(old(self).stack@),
            !more ==> final(self).current_leaf is None,
    {
        let ghost whole = stack_marks(self.stack@);
        let ghost all = stack_nodes(self.stack@);
        while self.stack.len() > 0
            invariant
                self.table == old(self).table,
                frames_ok(self.stack@),
                stack_marks(self.stack@) == whole,
                stack_nodes(self.stack@) <= all,
                whole == stack_marks(old(self).stack@),
                all == stack_nodes(old(self).stack@),
            decreases self.stack@.len(),
        {
            let ghost before = self.stack@;
            let frame = self.stack.pop().unwrap();
            let children = frame.children;
            let next = frame.next;
            proof {
                assert(before.drop_last() =~= self.stack@);
                assert(before[before.len() - 1].ok());
                assert forall|i: int| 0 <= i < self.stack@.len() implies (#[trigger] self.stack@[i]).ok() by {
                    assert(before[i].ok());
                }
            }
            if next < children.len() {
                let ghost lower = self.stack@;
                let ghost h = children@[0].tall();
                let child = &children[next];
                self.stack.push(Frame { children, next: next + 1 });
                proof {
                    let i = next as int;
                    let left = frame.left();
                    assert(self.stack@.drop_last() =~= lower);
                    assert(left[0] == children@[i]);
                    assert(left.skip(1) =~= children@.skip(i + 1));
                    assert(left.take(0) =~= Seq::empty());
                    lemma_all_at(left, 0);
                    assert(left.skip(0) =~= left);
                    assert(child.marks() + stack_marks(self.stack@) =~= whole);
                    assert(children@[i].wf(h));
                }
                self.descend_left(child, Ghost(h));
                return true;
            }
            proof {
                assert(frame.left() =~= Seq::empty());
                assert(stack_marks(self.stack@) =~= whole);
            }
        }
        self.current_leaf = None;
        assert(self.rest_marks() =~= whole);
        false
    }

    /// The element at this place, if there is one; then goes on to the next.
    pub(crate) fn advance(&mut self) -> (r: Option<&'a T>)
        requires
            old(self).wf(),
        ensures
            final(self).wf(),
            final(self).table == old(self).table,
            match r {
                Some(x) => {
                    &&& old(self).rest().len() > 0
                    &&& *x == old(self).rest()[0]
                    &&& final(self).rest() == old(self).rest().drop_first()
                },
                None => old(self).rest().len() == 0 && final(self).rest().len() == 0,
            },
    {
        let ghost whole = self.rest_marks();
        let ghost original = self.table.original@;
        let ghost add = self.table.add@;
        loop
            invariant
                self.table == old(self).table,
                self.wf(),
                self.rest_marks() == whole,
                whole == old(self).rest_marks(),
                original == self.table.original@,
                add == self.table.add@,
            decreases
                    stack_nodes(self.stack@),
                    (match self.current_leaf {
                        Some(ps) => 1 + ps@.len() - self.piece_idx,
                        None => 0,
                    }),
        {
            let leaf = match self.current_leaf {
                Some(leaf) => leaf,
                None => {
                    return None;
                },
            };
            if self.piece_idx >= leaf.len() {
                proof {
                    assert(leaf@.skip(self.piece_idx as int) =~= Seq::empty());
                    assert(self.leaf_marks() =~= Seq::empty());
                    assert(whole =~= stack_marks(self.stack@));
                }
                if !self.advance_leaf() {
                    assert(self.rest_marks() =~= Seq::empty());
                    return None;
                }
                continue;
            }
            let piece = &leaf[self.piece_idx];
            let ghost i = self.piece_idx as int;
            let ghost from = self.offset_in_piece as int;
            let ghost left = leaf@.skip(i);
            let ghost m = marks_of(left);
            proof {
                assert(leaf@[i].sound());
                lemma_marks_at(left, 0);
                assert(left.take(0) =~= Seq::empty());
                assert(left.skip(0) =~= left);
                assert(left.skip(1) =~= leaf@.skip(i + 1));
                assert(m == piece.marks() + marks_of(leaf@.skip(i + 1)));
            }
            if self.offset_in_piece < piece.len() {
                proof {
                    assert(whole[0] == m[from]);
                    assert(m[from] == piece.marks()[from]);
                    assert(whole[0].at == piece.start + from);
                    assert(0 <= whole[0].at);
                    assert(self.table.original.len() <= usize::MAX);
                    assert(self.table.add.len() <= usize::MAX);
                }
                let idx = piece.start + self.offset_in_piece;
                self.offset_in_piece += 1;
                proof {
                    let now = self.rest_marks();
                    assert(m.skip(from + 1) =~= m.skip(from).skip(1));
                    assert(now =~= whole.drop_first());
                    assert forall|k: int| 0 <= k < now.len() implies 0 <= (#[trigger] now[k]).at < (
                    match now[k].buffer {
                        BufferKind::File => original.len() as int,
                        BufferKind::Add => add.len() as int,
                    }) by {
                        assert(now[k] == whole[k + 1]);
                    }
                    assert(self.rest() =~= old(self).rest().drop_first());
                }
                return Some(
                    match piece.buffer {
                        BufferKind::File => &self.table.original[idx],
                        BufferKind::Add => &self.table.add[idx],
                    },
                );
            }
            self.piece_idx += 1;
            self.offset_in_piece = 0;
            proof {
                assert(m.skip(from) =~= marks_of(leaf@.skip(i + 1)));
                assert(marks_of(leaf@.skip(i + 1)).skip(0) =~= marks_of(leaf@.skip(i + 1)));
                if i + 1 < leaf@.len() {
                    assert(leaf@[i + 1].sound());
                }
            }
        }
    }
}

} // verus!
