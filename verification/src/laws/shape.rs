//! What shape the tree and the index have.
use vstd::arithmetic::power::{lemma_pow0, lemma_pow_positive, pow};
use vstd::prelude::*;

use crate::balance::{all_fit, fits, half_full, half_full_below, lemma_fits, lemma_half_full};
use crate::compact::CompactPieceTable;
use crate::document::lemma_tree_marks;
use crate::index::{groups, tiers};
use crate::laws::edits::source;
use crate::piece::{
    all_sound, coherent, heads, joined, lemma_heads_of, lemma_marks_coherent, lemma_marks_opens,
    marks_of, opens, settled, BufferKind, Mark, Piece,
};
use crate::table::PieceTable;
use crate::tree::{
    BNode, INTERNAL_MAX_CHILDREN, INTERNAL_MIN_CHILDREN, LEAF_MAX_PIECES, LEAF_MIN_PIECES,
};
use crate::walk::lemma_tree_pieces;

verus! {

/// The node that one comes to from `n` by going down to the child with each number of `path` in
/// turn, if there is one.
pub open spec fn descend(n: BNode, path: Seq<int>) -> Option<BNode>
    decreases path.len(),
{
    if path.len() == 0 {
        Some(n)
    } else {
        match n {
            BNode::Leaf { .. } => None,
            BNode::Internal { children, .. } => if 0 <= path[0] < children@.len() {
                descend(*children@[path[0]], path.skip(1))
            } else {
                None
            },
        }
    }
}

proof fn lemma_descend(n: BNode, h: nat, path: Seq<int>)
    requires
        n.wf(h),
        fits(n),
        descend(n, path) is Some,
    ensures
        path.len() < h,
        descend(n, path)->0.wf((h - path.len()) as nat),
        fits(descend(n, path)->0),
    decreases path.len(),
{
    if path.len() > 0 {
        match n {
            BNode::Leaf { .. } => {},
            BNode::Internal { children, .. } => {
                let c = *children@[path[0]];
                assert(children@[path[0]].wf((h - 1) as nat));
                assert(fits(c)) by {
                    reveal(crate::balance::all_fit);
                    assert(fits(*children@[path[0]]));
                }
                lemma_descend(c, (h - 1) as nat, path.skip(1));
            },
        }
    }
}

/// No leaf of a tree has more than `LEAF_MAX_PIECES` pieces, and no other node more than
/// `INTERNAL_MAX_CHILDREN` children, or none; the root, if it has children, has at least two. All
/// leaves are on the last of as many levels as the height says.
pub proof fn law_nodes_are_within_limits<T: Clone + PartialEq>(
    table: PieceTable<T>,
    height: usize,
    root: Box<BNode>,
    path: Seq<int>,
)
    requires
        table.wf(),
        table.original_len() + 2 * table.added() < usize::MAX,
        call_ensures(PieceTable::<T>::height, (&table,), height),
        table.tree() == Some(root),
        descend(*root, path) is Some,
    ensures
        match descend(*root, path)->0 {
            BNode::Leaf { pieces, .. } => {
                &&& pieces@.len() <= LEAF_MAX_PIECES
                &&& path.len() + 1 == height
            },
            BNode::Internal { children, .. } => {
                &&& 0 < children@.len() <= INTERNAL_MAX_CHILDREN
                &&& path.len() == 0 ==> children@.len() >= 2
                &&& path.len() + 1 < height
            },
        },
{
    lemma_descend(*root, root.tall(), path);
    lemma_fits(descend(*root, path)->0);
}

/// The node has at least half as many pieces or children as it may have.
pub open spec fn at_least_half(n: BNode) -> bool {
    match n {
        BNode::Leaf { pieces, .. } => 2 * pieces@.len() >= LEAF_MAX_PIECES,
        BNode::Internal { children, .. } => 2 * children@.len() >= INTERNAL_MAX_CHILDREN,
    }
}

/// Every node but the root has at least half as many pieces or children as it may have.
pub open spec fn all_at_least_half<T>(table: PieceTable<T>) -> bool {
    table.tree() matches Some(root) ==> forall|path: Seq<int>|
        path.len() > 0 && (#[trigger] descend(*root, path)) is Some ==> at_least_half(
            descend(*root, path)->0,
        )
}

proof fn lemma_half_paths(n: BNode, path: Seq<int>)
    requires
        half_full_below(n),
        path.len() > 0,
        descend(n, path) is Some,
    ensures
        at_least_half(descend(n, path)->0),
    decreases path.len(),
{
    match n {
        BNode::Leaf { .. } => {},
        BNode::Internal { children, .. } => {
            let c = *children@[path[0]];
            assert(half_full(c)) by {
                reveal(crate::balance::all_half_full);
                assert(half_full(*children@[path[0]]));
            }
            lemma_half_full(c);
            if path.len() > 1 {
                lemma_half_paths(c, path.skip(1));
            }
        },
    }
}

pub(crate) proof fn lemma_half_below(n: BNode)
    requires
        forall|path: Seq<int>|
            path.len() > 0 && (#[trigger] descend(n, path)) is Some ==> at_least_half(
                descend(n, path)->0,
            ),
    ensures
        half_full_below(n),
    decreases n,
{
    match n {
        BNode::Leaf { .. } => {},
        BNode::Internal { children, .. } => {
            reveal(crate::balance::all_half_full);
            assert forall|k: int| 0 <= k < children@.len() implies half_full(
                *#[trigger] children@[k],
            ) by {
                let c = *children@[k];
                let one = seq![k];
                assert(one.skip(1) =~= Seq::empty());
                assert(descend(c, one.skip(1)) == Some(c));
                assert(descend(n, one) == Some(c));
                assert forall|path: Seq<int>|
                    path.len() > 0 && (#[trigger] descend(c, path)) is Some implies at_least_half(
                    descend(c, path)->0,
                ) by {
                    let longer = seq![k] + path;
                    assert(longer.skip(1) =~= path);
                    assert(descend(n, longer) == descend(c, path));
                }
                lemma_half_below(c);
                lemma_half_full(c);
            }
        },
    }
}

/// A new table, and one that is the result of an insertion into such a table, has only nodes that
/// are at least half full, but for the root.
pub proof fn law_insertions_leave_nodes_half_full<T: Clone + PartialEq>(
    initial: Vec<T>,
    fresh: PieceTable<T>,
    table: &mut PieceTable<T>,
    pos: usize,
    data: &[T],
)
    requires
        call_ensures(PieceTable::<T>::new, (initial,), fresh),
        all_at_least_half(*old(table)),
        call_ensures(PieceTable::<T>::insert, (table, pos, data), ()),
    ensures
        all_at_least_half(fresh),
        all_at_least_half(*final(table)),
{
    if let Some(n) = old(table).tree() {
        lemma_half_below(*n);
    }
    assert(old(table).half_full());
    assert forall|t: PieceTable<T>| #[trigger] t.half_full() implies all_at_least_half(t) by {
        if let Some(n) = t.tree() {
            assert forall|path: Seq<int>|
                path.len() > 0 && (#[trigger] descend(*n, path)) is Some implies at_least_half(
                descend(*n, path)->0,
            ) by {
                lemma_half_paths(*n, path);
            }
        }
    }
    assert(fresh.half_full());
    assert(final(table).half_full());
}

/// After a deletion that does not take a level away, the children of the root, if they are more
/// than one, are empty or lack at most one entry of half of those that they may have.
pub proof fn law_deletions_leave_children_nearly_half_full<T: Clone + PartialEq>(
    table: &mut PieceTable<T>,
    pos: usize,
    len: usize,
    root: Box<BNode>,
    k: int,
)
    requires
        old(table).wf(),
        len > 0,
        call_ensures(PieceTable::<T>::delete, (table, pos, len), ()),
        final(table).levels() >= old(table).levels(),
        final(table).tree() == Some(root),
        descend(*root, seq![k]) is Some,
    ensures
        match descend(*root, seq![k])->0 {
            BNode::Leaf { pieces, .. } => pieces@.len() == 0 || pieces@.len() + 1
                >= LEAF_MIN_PIECES,
            BNode::Internal { children, .. } => children@.len() + 1 >= INTERNAL_MIN_CHILDREN,
        },
{
    reveal(crate::balance::nearly_fed);
    match *root {
        BNode::Leaf { .. } => {},
        BNode::Internal { children, .. } => {
            assert(seq![k].skip(1) =~= Seq::empty());
            assert(descend(*children@[k], seq![k].skip(1)) == Some(*children@[k]));
            assert(children@[k].wf((root.tall() - 1) as nat));
            assert(children@[k].fill() == 0 || children@[k].fill() + 1 >= crate::balance::min_fill(
                *children@[k],
            ));
        },
    }
}

/// The pieces below this node, in order.
pub open spec fn pieces_below(n: BNode) -> Seq<Piece>
    decreases n,
{
    match n {
        BNode::Leaf { pieces, .. } => pieces@,
        BNode::Internal { children, .. } => pieces_below_all(children@),
    }
}

pub open spec fn pieces_below_all(s: Seq<Box<BNode>>) -> Seq<Piece>
    decreases s,
{
    if s.len() == 0 {
        Seq::empty()
    } else {
        pieces_below_all(s.drop_last()) + pieces_below(*s.last())
    }
}

pub(crate) proof fn lemma_pieces_below(n: BNode)
    ensures
        pieces_below(n) == n.flat(),
    decreases n,
{
    match n {
        BNode::Leaf { .. } => {},
        BNode::Internal { children, .. } => {
            lemma_pieces_below_all(children@);
        },
    }
}

proof fn lemma_pieces_below_all(s: Seq<Box<BNode>>)
    ensures
        pieces_below_all(s) == crate::defect::flat_all(s),
    decreases s,
{
    if s.len() > 0 {
        lemma_pieces_below_all(s.drop_last());
        lemma_pieces_below(*s.last());
    }
}

/// At how many of the first `n` positions an element does not come right after the one before it in
/// the buffer that holds both.
pub open spec fn breaks(m: Seq<Mark>, n: int) -> nat
    decreases n,
{
    if n <= 0 {
        0
    } else {
        let k = n - 1;
        breaks(m, k) + (if 0 < k && m[k].buffer == m[k - 1].buffer && m[k].at == m[k - 1].at + 1 {
            0nat
        } else {
            1nat
        })
    }
}

proof fn lemma_breaks(m: Seq<Mark>, n: int)
    requires
        0 <= n <= m.len(),
        settled(m),
        coherent(m),
        opens(m),
    ensures
        breaks(m, n) == heads(m.take(n)),
    decreases n,
{
    if n > 0 {
        let k = n - 1;
        lemma_breaks(m, k);
        assert(m.take(n).drop_last() =~= m.take(k));
        assert(m.take(n).last() == m[k]);
        assert(joined(m, k) == (0 < k && m[k].buffer == m[k - 1].buffer && m[k].at == m[k - 1].at
            + 1));
        if k > 0 && m[k].head {
            assert(!joined(m, k));
        }
    } else {
        assert(m.take(0) =~= Seq::empty());
    }
}

/// A document is held by as few pieces as can be: there is one for each position at which an
/// element does not come right after the one before it in the buffer that holds both. None is
/// empty, and one after the other they name where the elements are held.
pub proof fn law_pieces_are_few<T>(table: PieceTable<T>, root: Box<BNode>)
    requires
        table.wf(),
        table.tree() == Some(root),
    ensures
        pieces_below(*root).len() == breaks(table.marks(), table.marks().len() as int),
        forall|i: int|
            0 <= i < pieces_below(*root).len() ==> (#[trigger] pieces_below(*root)[i]).start
                < pieces_below(*root)[i].end,
        spelled(pieces_below(*root)) == Seq::new(
            table@.len(),
            |k: int| source(table.marks(), k),
        ),
{
    let ps = pieces_below(*root);
    lemma_pieces_below(*root);
    lemma_tree_pieces(&table);
    lemma_tree_marks(table.tree());
    lemma_heads_of(ps);
    lemma_breaks(table.marks(), table.marks().len() as int);
    assert(table.marks().take(table.marks().len() as int) =~= table.marks());
    assert forall|i: int| 0 <= i < ps.len() implies (#[trigger] ps[i]).start < ps[i].end by {
        assert(ps[i].sound());
    }
    lemma_spelled(ps);
    assert(spelled(ps) =~= Seq::new(table@.len(), |k: int| source(table.marks(), k)));
}

/// As [`law_pieces_are_few`], for the list of a compact table.
pub proof fn law_compact_pieces_are_few<T>(table: CompactPieceTable<T>)
    requires
        table.wf(),
    ensures
        table.parts() == breaks(table.marks(), table.marks().len() as int),
        table.marks().len() == table@.len(),
{
    let m = table.marks();
    lemma_marks_opens(table.pieces@);
    lemma_marks_coherent(table.pieces@);
    lemma_heads_of(table.pieces@);
    lemma_breaks(m, m.len() as int);
    assert(m.take(m.len() as int) =~= m);
}

/// Where the elements are held that the pieces name, one after the other.
pub open spec fn spelled(ps: Seq<Piece>) -> Seq<(BufferKind, int)>
    decreases ps.len(),
{
    if ps.len() == 0 {
        Seq::empty()
    } else {
        let p = ps.last();
        spelled(ps.drop_last()) + Seq::new(
            (p.end - p.start) as nat,
            |j: int| (p.buffer, p.start + j),
        )
    }
}

proof fn lemma_spelled(ps: Seq<Piece>)
    requires
        all_sound(ps),
    ensures
        spelled(ps).len() == marks_of(ps).len(),
        forall|k: int|
            0 <= k < marks_of(ps).len() ==> #[trigger] spelled(ps)[k] == source(marks_of(ps), k),
    decreases ps.len(),
{
    if ps.len() > 0 {
        let front = ps.drop_last();
        let p = ps.last();
        assert(ps[ps.len() - 1].sound());
        assert forall|k: int| 0 <= k < front.len() implies (#[trigger] front[k]).sound() by {
            assert(ps[k].sound());
        }
        lemma_spelled(front);
        let m = marks_of(front);
        assert forall|k: int| 0 <= k < marks_of(ps).len() implies #[trigger] spelled(ps)[k]
            == source(marks_of(ps), k) by {
            if k < m.len() {
                assert(marks_of(ps)[k] == m[k]);
                assert(spelled(ps)[k] == spelled(front)[k]);
            } else {
                assert(marks_of(ps)[k] == p.marks()[k - m.len()]);
            }
        }
    }
}

/// How many pieces a tree of height `h` can hold.
pub open spec fn capacity(h: int) -> int {
    LEAF_MAX_PIECES * pow(INTERNAL_MAX_CHILDREN as int, (h - 1) as nat)
}

proof fn lemma_next_power(b: int, n: nat)
    requires
        b > 0,
    ensures
        pow(b, n + 1) == b * pow(b, n),
        pow(b, n) > 0,
{
    reveal(pow);
    lemma_pow_positive(b, n);
}

proof fn lemma_capacity(n: BNode, h: nat)
    requires
        n.wf(h),
        fits(n),
    ensures
        pieces_below(n).len() <= capacity(h as int),
    decreases n,
{
    lemma_fits(n);
    match n {
        BNode::Leaf { pieces, .. } => {
            lemma_pow0(INTERNAL_MAX_CHILDREN as int);
        },
        BNode::Internal { children, .. } => {
            let k = (h - 1) as nat;
            lemma_capacity_all(children@, k);
            lemma_next_power(INTERNAL_MAX_CHILDREN as int, (k - 1) as nat);
            let c = capacity(k as int);
            assert(children@.len() * c <= INTERNAL_MAX_CHILDREN * c) by (nonlinear_arith)
                requires
                    children@.len() <= INTERNAL_MAX_CHILDREN,
                    c >= 0,
            ;
            let q = pow(INTERNAL_MAX_CHILDREN as int, (k - 1) as nat);
            assert(INTERNAL_MAX_CHILDREN * (LEAF_MAX_PIECES * q) == LEAF_MAX_PIECES * (
            INTERNAL_MAX_CHILDREN * q)) by (nonlinear_arith);
        },
    }
}

proof fn lemma_capacity_all(s: Seq<Box<BNode>>, h: nat)
    requires
        forall|i: int| 0 <= i < s.len() ==> (#[trigger] s[i]).wf(h),
        all_fit(s),
        h > 0,
    ensures
        pieces_below_all(s).len() <= s.len() * capacity(h as int),
        capacity(h as int) > 0,
    decreases s,
{
    lemma_next_power(INTERNAL_MAX_CHILDREN as int, (h - 1) as nat);
    let c = capacity(h as int);
    if s.len() > 0 {
        reveal(all_fit);
        let front = s.drop_last();
        assert(s[s.len() - 1] == s.last());
        assert(fits(*s[s.len() - 1]));
        assert forall|i: int| 0 <= i < front.len() implies fits(*#[trigger] front[i]) by {
            assert(fits(*s[i]));
        }
        assert forall|i: int| 0 <= i < front.len() implies (#[trigger] front[i]).wf(h) by {
            assert(s[i].wf(h));
        }
        lemma_capacity_all(front, h);
        lemma_capacity(*s.last(), h);
        assert(s.len() * c == front.len() * c + c) by (nonlinear_arith)
            requires
                s.len() == front.len() + 1,
        ;
    } else {
        assert(0 * c == 0) by (nonlinear_arith);
    }
}

/// A tree is as high as its pieces need it to be: it holds at most as many as full leaves under
/// full nodes on as many levels.
pub proof fn law_tree_holds_its_pieces<T: Clone + PartialEq>(
    table: PieceTable<T>,
    height: usize,
    root: Box<BNode>,
)
    requires
        table.wf(),
        table.original_len() + 2 * table.added() < usize::MAX,
        call_ensures(PieceTable::<T>::height, (&table,), height),
        table.tree() == Some(root),
    ensures
        pieces_below(*root).len() <= LEAF_MAX_PIECES * pow(
            INTERNAL_MAX_CHILDREN as int,
            (height - 1) as nat,
        ),
{
    lemma_capacity(*root, root.tall());
}

proof fn lemma_tiers(m: nat)
    requires
        m >= 1,
    ensures
        pow(INTERNAL_MAX_CHILDREN as int, tiers(m)) >= m,
        tiers(m) > 0 ==> pow(INTERNAL_MAX_CHILDREN as int, (tiers(m) - 1) as nat) < m,
    decreases m,
{
    let b = INTERNAL_MAX_CHILDREN as int;
    if m == 1 {
        lemma_pow0(b);
    } else {
        let g = groups(m as int, b) as nat;
        assert(b * g >= m && b * (g - 1) < m && 1 <= g < m);
        lemma_tiers(g);
        let t = tiers(g);
        lemma_next_power(b, t);
        if t == 0 {
            lemma_pow0(b);
        } else {
            lemma_next_power(b, (t - 1) as nat);
        }
    }
}

/// The index of a compact table is as low as it can be: over `n` pieces it has one level if they
/// fit into one leaf, and else as few as full leaves under full nodes need to hold them.
pub proof fn law_index_is_as_low_as_can_be<T: Clone + PartialEq>(
    table: CompactPieceTable<T>,
    height: usize,
)
    requires
        call_ensures(CompactPieceTable::<T>::height, (&table,), height),
    ensures
        height == 0 <==> table.parts() == 0,
        height >= 1 ==> table.parts() <= LEAF_MAX_PIECES * pow(
            INTERNAL_MAX_CHILDREN as int,
            (height - 1) as nat,
        ),
        height >= 2 ==> table.parts() > LEAF_MAX_PIECES * pow(
            INTERNAL_MAX_CHILDREN as int,
            (height - 2) as nat,
        ),
{
    let n = table.parts();
    if n > 0 {
        let g = groups(n as int, LEAF_MAX_PIECES as int) as nat;
        assert(LEAF_MAX_PIECES * g >= n && LEAF_MAX_PIECES * (g - 1) < n && g >= 1);
        lemma_tiers(g);
        let t = tiers(g);
        assert(height == 1 + t);
    }
}

} // verus!
