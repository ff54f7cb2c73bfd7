//! When nodes are made and merged, and that no leaf is empty.
use vstd::prelude::*;

use crate::balance::{
    all_filled, all_roomy, all_spare, filled, lemma_filled, lemma_room, roomy, spare,
};
use crate::document::lemma_tree_marks;
use crate::laws::edits::{
    counts_on, law_delete_is_counted, lemma_nodes_of, meets_over, nodes_of, once, source,
};
use crate::laws::reading::{continues_at, lemma_heads_break};
use crate::laws::shape::{all_at_least_half, descend, lemma_half_below};
use crate::list::lemma_heads_headed;
use crate::piece::{cut, headed, heads, lemma_heads_add, BufferKind, Mark};
use crate::stats::Stats;
use crate::table::PieceTable;
use crate::tree::{
    BNode, INTERNAL_MAX_CHILDREN, INTERNAL_MIN_CHILDREN, LEAF_MAX_PIECES, LEAF_MIN_PIECES,
};

verus! {

/// A leaf has at most 64 pieces and another node at most 32 children, and each is to have at least
/// half as many.
pub proof fn law_limits()
    ensures
        LEAF_MAX_PIECES == 64,
        INTERNAL_MAX_CHILDREN == 32,
        2 * LEAF_MIN_PIECES == LEAF_MAX_PIECES,
        2 * INTERNAL_MIN_CHILDREN == INTERNAL_MAX_CHILDREN,
{
}

/// Every leaf that one can come to from `n` would have no more pieces than it may have, if it had
/// `k` more.
pub open spec fn leaves_can_take(n: BNode, k: int) -> bool {
    forall|path: Seq<int>|
        (#[trigger] descend(n, path)) is Some ==> (descend(n, path)->0 matches BNode::Leaf {
            pieces,
            ..
        } ==> pieces@.len() + k <= LEAF_MAX_PIECES)
}

/// Every node with children that one can come to from `n` has fewer than it may have.
pub open spec fn parents_can_take_one(n: BNode) -> bool {
    forall|path: Seq<int>|
        (#[trigger] descend(n, path)) is Some ==> (descend(n, path)->0 matches BNode::Internal {
            children,
            ..
        } ==> children@.len() < INTERNAL_MAX_CHILDREN)
}

proof fn lemma_leaves_can_take(n: BNode, k: int)
    requires
        leaves_can_take(n, k),
    ensures
        roomy(n, k),
    decreases n,
{
    lemma_room(n, k);
    assert(descend(n, Seq::empty()) == Some(n));
    match n {
        BNode::Leaf { .. } => {},
        BNode::Internal { children, .. } => {
            reveal(all_roomy);
            assert forall|i: int| 0 <= i < children@.len() implies roomy(
                *#[trigger] children@[i],
                k,
            ) by {
                let c = *children@[i];
                assert forall|path: Seq<int>|
                    (#[trigger] descend(c, path)) is Some implies (descend(
                    c,
                    path,
                )->0 matches BNode::Leaf { pieces, .. } ==> pieces@.len() + k
                    <= LEAF_MAX_PIECES) by {
                    let longer = seq![i] + path;
                    assert(longer.skip(1) =~= path);
                    assert(descend(n, longer) == descend(c, path));
                }
                lemma_leaves_can_take(c, k);
            }
        },
    }
}

proof fn lemma_parents_can_take_one(n: BNode)
    requires
        parents_can_take_one(n),
    ensures
        spare(n),
    decreases n,
{
    lemma_room(n, 0);
    assert(descend(n, Seq::empty()) == Some(n));
    match n {
        BNode::Leaf { .. } => {},
        BNode::Internal { children, .. } => {
            reveal(all_spare);
            assert forall|i: int| 0 <= i < children@.len() implies spare(
                *#[trigger] children@[i],
            ) by {
                let c = *children@[i];
                assert forall|path: Seq<int>|
                    (#[trigger] descend(c, path)) is Some implies (descend(
                    c,
                    path,
                )->0 matches BNode::Internal { children: kids, .. } ==> kids@.len()
                    < INTERNAL_MAX_CHILDREN) by {
                    let longer = seq![i] + path;
                    assert(longer.skip(1) =~= path);
                    assert(descend(n, longer) == descend(c, path));
                }
                lemma_parents_can_take_one(c);
            }
        },
    }
}

/// An insertion makes no node that it does not need. It makes none if what it puts in follows what
/// was inserted last, or if every leaf has room for a piece, and for another if elements that came
/// one after the other in a buffer are parted. If every node with children has room for one more,
/// it makes at most one node, and a root if there was only a leaf.
pub proof fn law_insertions_make_no_needless_node<T: Clone + PartialEq>(
    table: &mut PieceTable<T>,
    pos: usize,
    data: &[T],
    root: Box<BNode>,
)
    requires
        old(table).wf(),
        pos <= old(table)@.len(),
        data@.len() > 0,
        old(table).tree() == Some(root),
        call_ensures(PieceTable::<T>::insert, (table, pos, data), ()),
    ensures
        0 < pos && source(old(table).marks(), pos - 1) == (
            BufferKind::Add,
            old(table).added() - 1,
        ) ==> nodes_of(final(table).tree()) == nodes_of(Some(root)),
        leaves_can_take(*root, 1 + once(continues_at(*old(table), pos as int))) ==> nodes_of(
            final(table).tree(),
        ) == nodes_of(Some(root)),
        parents_can_take_one(*root) ==> nodes_of(final(table).tree()) <= nodes_of(Some(root)) + 1
            + once((*root) is Leaf),
{
    let this = *old(table);
    let m = this.marks();
    let at = pos as int;
    lemma_nodes_of(*old(table));
    lemma_nodes_of(*final(table));
    lemma_tree_marks(this.tree());
    if at < m.len() {
        lemma_heads_break(this, at);
    }
    let room = 1 + once(continues_at(this, at));
    assert(room == 1 + crate::list::one_if(this.splits(at)));
    if leaves_can_take(*root, room) {
        lemma_leaves_can_take(*root, room);
        assert(this.has_room(room));
    }
    if parents_can_take_one(*root) {
        lemma_parents_can_take_one(*root);
        assert(this.has_spare_children());
    }
    if (*root) is Internal {
        assert(this.levels() > 1) by {
            crate::tree::lemma_tall(*root, root.tall());
        }
    }
    if 0 < at && source(m, at - 1) == (BufferKind::Add, this.added() - 1) {
        assert(m[at - 1].at + 1 == this.added());
        if at < m.len() {
            assert(m[at].buffer == BufferKind::Add ==> m[at].at < this.added());
            assert(!continues_at(this, at));
        }
        assert(this.extends(at));
    }
}

/// A deletion makes no node, unless it parts elements that came one after the other in a buffer at
/// both of its ends and some leaf has as many pieces as it may have: it then counts no split but
/// for its ends, and the tree has no more nodes than before.
pub proof fn law_deletions_make_no_needless_node<T: Clone + PartialEq>(
    table: &mut PieceTable<T>,
    pos: usize,
    len: usize,
    root: Box<BNode>,
    before: Stats,
    after: Stats,
)
    requires
        old(table).wf(),
        pos + len <= old(table)@.len(),
        len > 0,
        old(table).tree() == Some(root),
        call_ensures(PieceTable::<T>::stats, (old(table),), before),
        call_ensures(PieceTable::<T>::delete, (table, pos, len), ()),
        call_ensures(PieceTable::<T>::stats, (final(table),), after),
    ensures
        ({
            let ends = once(continues_at(*old(table), pos as int)) + once(
                continues_at(*old(table), pos + len),
            );
            ends < 2 || leaves_can_take(*root, 1) ==> {
                &&& counts_on(before.split_calls, ends, after.split_calls)
                &&& nodes_of(final(table).tree()) <= nodes_of(Some(root))
            }
        }),
{
    let this = *old(table);
    let m = this.marks();
    let (p, n) = (pos as int, len as int);
    law_delete_is_counted(table, pos, len, before, after);
    lemma_tree_marks(this.tree());
    if p < m.len() {
        lemma_heads_break(this, p);
    }
    if p + n < m.len() {
        lemma_heads_break(this, p + n);
    }
    if leaves_can_take(*root, 1) {
        lemma_leaves_can_take(*root, 1);
        assert(this.has_room(1));
    }
    assert(once(continues_at(this, p)) == once(this.splits(p)));
    assert(once(continues_at(this, p + n)) == once(this.splits(p + n)));
}

/// The range takes a piece out whole: at two of its positions, the one behind it among them, an
/// element does not come right after the one before it in the buffer that holds both.
pub open spec fn whole_piece_within<T>(table: PieceTable<T>, pos: int, len: int) -> bool {
    exists|lo: int, hi: int| #[trigger] break_at(table, lo) && #[trigger] break_at(table, hi) && pos
        <= lo < hi <= pos + len
}

/// Element `k` does not come right after the one before it in the buffer that holds both, or there
/// is none.
pub open spec fn break_at<T>(table: PieceTable<T>, k: int) -> bool {
    !continues_at(table, k)
}

proof fn lemma_one_head(b: Seq<Mark>, i: int)
    requires
        forall|k: int| 0 <= k < b.len() && k != i ==> !(#[trigger] b[k]).head,
    ensures
        heads(b) <= 1,
        !(0 <= i < b.len()) ==> heads(b) == 0,
    decreases b.len(),
{
    if b.len() > 0 {
        let n = b.len() - 1;
        if i == n {
            lemma_one_head(b.drop_last(), i);
        } else {
            assert(!b[n].head);
            lemma_one_head(b.drop_last(), i);
        }
    }
}

proof fn lemma_no_piece_lost<T>(table: PieceTable<T>, pos: int, len: int)
    requires
        table.wf(),
        0 <= pos,
        0 < len,
        pos + len <= table.marks().len(),
        !whole_piece_within(table, pos, len),
    ensures
        heads(cut(table.marks(), pos, len)) >= heads(table.marks()),
{
    let m = table.marks();
    let a = m.take(pos);
    let b = m.subrange(pos, pos + len);
    let c = m.skip(pos + len);
    assert(m =~= a + b + c);
    lemma_heads_add(a + b, c);
    lemma_heads_add(a, b);
    lemma_heads_add(a, headed(c));
    lemma_heads_headed(c);
    if exists|k: int| 0 <= k < b.len() && (#[trigger] b[k]).head {
        let i = choose|k: int| 0 <= k < b.len() && (#[trigger] b[k]).head;
        assert(b[i] == m[pos + i]);
        lemma_heads_break(table, pos + i);
        assert(break_at(table, pos + i));
        assert forall|k: int| 0 <= k < b.len() && k != i implies !(#[trigger] b[k]).head by {
            assert(b[k] == m[pos + k]);
            lemma_heads_break(table, pos + k);
            if b[k].head {
                assert(break_at(table, pos + k));
                if k < i {
                    assert(whole_piece_within(table, pos, len));
                } else {
                    assert(whole_piece_within(table, pos, len));
                }
            }
        }
        lemma_one_head(b, i);
        assert(!break_at(table, pos + len));
        lemma_heads_break(table, pos + len);
        assert(c[0] == m[pos + len]);
    } else {
        lemma_one_head(b, -1);
    }
}

/// Where every node but the root has at least half as many entries as it may have, a deletion that
/// takes no piece out whole, and does not bring elements together that come one after the other in
/// a buffer, merges nothing.
pub proof fn law_deletions_merge_no_needless_node<T: Clone + PartialEq>(
    table: &mut PieceTable<T>,
    pos: usize,
    len: usize,
    before: Stats,
    after: Stats,
)
    requires
        old(table).wf(),
        pos + len <= old(table)@.len(),
        len > 0,
        all_at_least_half(*old(table)),
        !whole_piece_within(*old(table), pos as int, len as int),
        !meets_over(*old(table), pos as int, len as int),
        call_ensures(PieceTable::<T>::stats, (old(table),), before),
        call_ensures(PieceTable::<T>::delete, (table, pos, len), ()),
        call_ensures(PieceTable::<T>::stats, (final(table),), after),
    ensures
        after.merge_calls == before.merge_calls,
        after.coalesces == before.coalesces,
{
    let this = *old(table);
    let m = this.marks();
    let (p, n) = (pos as int, len as int);
    law_delete_is_counted(table, pos, len, before, after);
    lemma_tree_marks(this.tree());
    if let Some(root) = this.tree() {
        lemma_half_below(*root);
    }
    assert(this.half_full());
    lemma_heads_break(this, p);
    lemma_no_piece_lost(this, p, n);
    assert(!this.meets(p, n)) by {
        let c = cut(m, p, n);
        if 0 < p && p + n < m.len() {
            assert(c[p - 1] == m[p - 1]);
            assert(m.skip(p + n)[0] == m[p + n]);
            assert(c[p].buffer == m[p + n].buffer && c[p].at == m[p + n].at);
        }
    }
    assert(final(table).nodes_merged() == this.nodes_merged());
    vstd::arithmetic::div_mod::lemma_small_mod(
        before.merge_calls as nat,
        (usize::MAX as int + 1) as nat,
    );
    vstd::arithmetic::div_mod::lemma_small_mod(
        before.coalesces as nat,
        (usize::MAX as int + 1) as nat,
    );
}

/// Every leaf that one can come to has a piece.
pub open spec fn no_leaf_empty<T>(table: PieceTable<T>) -> bool {
    table.tree() matches Some(root) ==> no_leaf_empty_below(*root)
}

pub open spec fn no_leaf_empty_below(n: BNode) -> bool {
    forall|path: Seq<int>|
        (#[trigger] descend(n, path)) is Some ==> (descend(n, path)->0 matches BNode::Leaf {
            pieces,
            ..
        } ==> pieces@.len() > 0)
}

proof fn lemma_filled_path(n: BNode, path: Seq<int>)
    requires
        filled(n),
        descend(n, path) is Some,
    ensures
        descend(n, path)->0 matches BNode::Leaf { pieces, .. } ==> pieces@.len() > 0,
    decreases path.len(),
{
    lemma_filled(n);
    if path.len() > 0 {
        match n {
            BNode::Leaf { .. } => {},
            BNode::Internal { children, .. } => {
                reveal(all_filled);
                assert(filled(*children@[path[0]]));
                lemma_filled_path(*children@[path[0]], path.skip(1));
            },
        }
    }
}

proof fn lemma_no_leaf_empty(n: BNode)
    requires
        no_leaf_empty_below(n),
    ensures
        filled(n),
    decreases n,
{
    lemma_filled(n);
    assert(descend(n, Seq::empty()) == Some(n));
    match n {
        BNode::Leaf { .. } => {},
        BNode::Internal { children, .. } => {
            reveal(all_filled);
            assert forall|i: int| 0 <= i < children@.len() implies filled(
                *#[trigger] children@[i],
            ) by {
                let c = *children@[i];
                assert forall|path: Seq<int>|
                    (#[trigger] descend(c, path)) is Some implies (descend(
                    c,
                    path,
                )->0 matches BNode::Leaf { pieces, .. } ==> pieces@.len() > 0) by {
                    let longer = seq![i] + path;
                    assert(longer.skip(1) =~= path);
                    assert(descend(n, longer) == descend(c, path));
                }
                lemma_no_leaf_empty(c);
            }
        },
    }
}

proof fn lemma_table_filled<T>(table: PieceTable<T>)
    ensures
        table.filled() <==> no_leaf_empty(table),
{
    if let Some(root) = table.tree() {
        if filled(*root) {
            assert forall|path: Seq<int>|
                (#[trigger] descend(*root, path)) is Some implies (descend(
                *root,
                path,
            )->0 matches BNode::Leaf { pieces, .. } ==> pieces@.len() > 0) by {
                lemma_filled_path(*root, path);
            }
        }
        if no_leaf_empty(table) {
            lemma_no_leaf_empty(*root);
        }
    }
}

/// No leaf of a new table is empty, and no edit empties one.
pub proof fn law_no_leaf_is_empty<T: Clone + PartialEq>(
    initial: Vec<T>,
    fresh: PieceTable<T>,
    grown: &mut PieceTable<T>,
    pos: usize,
    data: &[T],
    cut: &mut PieceTable<T>,
    from: usize,
    len: usize,
)
    requires
        call_ensures(PieceTable::<T>::new, (initial,), fresh),
        no_leaf_empty(*old(grown)),
        call_ensures(PieceTable::<T>::insert, (grown, pos, data), ()),
        no_leaf_empty(*old(cut)),
        call_ensures(PieceTable::<T>::delete, (cut, from, len), ()),
    ensures
        no_leaf_empty(fresh),
        no_leaf_empty(*final(grown)),
        no_leaf_empty(*final(cut)),
{
    lemma_table_filled(fresh);
    lemma_table_filled(*old(grown));
    lemma_table_filled(*final(grown));
    lemma_table_filled(*old(cut));
    lemma_table_filled(*final(cut));
}

} // verus!
