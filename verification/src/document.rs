//! Edits of a document held in a tree that may be empty.
use vstd::prelude::*;

use crate::balance::{
    all_filled, all_fit, all_half_full, filled, fits, fits_below, half_full, half_full_below,
    is_overfull, lemma_filled, lemma_filled_halved, lemma_fits, lemma_fits_halved, max_fill,
    min_fill, nearly_fed, roomy, spare, split_half,
};
use crate::content::{holds_run, lemma_fused_equal, lemma_grown_run, lemma_splice_run, within};
use crate::edit::{
    calm, coalesce_seam, compact_root, delete_tally, deletion_counts, ends_at, grown,
    kept_in_bounds, lemma_heads_grown, lemma_heads_seam, lemma_no_heads, nearly_fed_kids,
    opt_marks, opt_size, seam_tally, settled_but,
};
use crate::list::{lemma_heads_splice, one_if};
use crate::piece::{
    coherent, cut, distinct, fused, heads, inside, joined, lemma_fused_trans,
    lemma_heads_add, lemma_marks_one, opens, run, settled, splice, BufferKind, Mark, Piece,
};
use crate::stats::{lemma_tallied_none, lemma_tallied_trans, tallied, Stats};
use crate::tree::{
    books_kept, lemma_all_add, lemma_all_one, lemma_node_coherent, lemma_node_opens, lemma_tall,
    only_made, BNode, NodePool, Tree,
};

verus! {

/// A valid tree: it is empty, or its root is valid, holds some element, and does not have just one
/// child, and no node has more pieces or children than it is to have.
pub open spec fn tree_wf(t: Tree) -> bool {
    match t {
        Some(n) => n.wf(n.tall()) && n.span() > 0 && branches(*n) && fits(*n),
        None => true,
    }
}

/// A node that has children has at least two.
pub open spec fn branches(n: BNode) -> bool {
    n is Internal ==> n.fill() > 1
}

/// Every node but the root has at least as many pieces or children as it is to have.
pub open spec fn tree_half_full(t: Tree) -> bool {
    t matches Some(n) ==> half_full_below(*n)
}

/// Every leaf has a piece.
pub open spec fn tree_filled(t: Tree) -> bool {
    t matches Some(n) ==> filled(*n)
}

/// The number of levels.
pub open spec fn tree_tall(t: Tree) -> nat {
    match t {
        Some(n) => n.tall(),
        None => 0,
    }
}

pub(crate) proof fn lemma_tree_marks(t: Tree)
    requires
        tree_wf(t),
    ensures
        opens(opt_marks(t)),
        coherent(opt_marks(t)),
        t is None <==> opt_marks(t).len() == 0,
        t matches Some(n) ==> n.span() == opt_marks(t).len(),
{
    match t {
        Some(n) => {
            lemma_node_opens(*n, n.tall());
            lemma_node_coherent(*n, n.tall());
        },
        None => {},
    }
}

/// The nodes `left` and `right`, of height `h`, under a new root.
proof fn lemma_new_root(root: BNode, left: Box<BNode>, right: Box<BNode>, h: nat)
    requires
        left.wf(h),
        right.wf(h),
        match root {
            BNode::Internal { children, subtree_len } => {
                &&& children@ == seq![left, right]
                &&& subtree_len == left.marks().len() + right.marks().len()
            },
            _ => false,
        },
    ensures
        root.wf(h + 1),
        root.tall() == h + 1,
        root.marks() == left.marks() + right.marks(),
        root.size() == 1 + left.size() + right.size(),
{
    match root {
        BNode::Internal { children, subtree_len } => {
            let s = children@;
            lemma_tall(*left, h);
            assert(left.tall() == h);
            assert(s =~= seq![left] + seq![right]);
            lemma_all_add(seq![left], seq![right]);
            lemma_all_one(left);
            lemma_all_one(right);
            assert forall|i: int| 0 <= i < s.len() implies (#[trigger] s[i]).wf(h) by {}
            assert(root.ok(h + 1));
            assert(h > 0) by {
                lemma_tall(*left, h);
            }
        },
        _ => {},
    }
}

/// A root above two nodes.
proof fn lemma_two_kids(root: BNode, left: Box<BNode>, right: Box<BNode>)
    requires
        match root {
            BNode::Internal { children, .. } => children@ == seq![left, right],
            _ => false,
        },
    ensures
        fits(*left) && fits(*right) ==> fits(root),
        half_full(*left) && half_full(*right) ==> half_full_below(root),
        filled(*left) && filled(*right) ==> filled(root),
        left.fill() >= min_fill(*left) && right.fill() >= min_fill(*right) ==> nearly_fed_kids(
            root,
        ),
{
    reveal(all_fit);
    reveal(all_half_full);
    reveal(all_filled);
    reveal(nearly_fed);
    lemma_filled(root);
}

/// Puts the elements of the add buffer from `start` up to `end` into the document before element
/// `pos`. No element from `start` on may be in the document yet.
pub(crate) fn insert_run(
    tree: Tree,
    pos: usize,
    start: usize,
    end: usize,
    stats: &mut Stats,
    pool: &mut NodePool,
) -> (r: Tree)
    requires
        tree_wf(tree),
        settled(opt_marks(tree)),
        pos <= opt_marks(tree).len(),
        start < end,
        opt_marks(tree).len() + (end - start) <= usize::MAX,
        exists|file_len: int| within(opt_marks(tree), file_len, start as int),
        old(pool).hollow(),
    ensures
        tree_wf(r),
        settled(opt_marks(r)),
        holds_run(opt_marks(tree), pos as int, start as int, end as int, opt_marks(r)),
        tree_tall(tree) <= tree_tall(r) <= tree_tall(tree) + 1,
        tallied(
            *old(stats),
            *final(stats),
            one_if(inside(opt_marks(tree), pos as int)) + (if tree is None {
                0
            } else {
                opt_size(r) - opt_size(tree)
            }),
            0,
            0,
        ),
        ends_at(opt_marks(tree), pos as int, BufferKind::Add, start as int) ==> opt_size(r)
            == opt_size(tree),
        r is Some,
        tree matches Some(n) ==> {
            &&& roomy(*n, 1 + one_if(inside(n.marks(), pos as int))) ==> opt_size(r) == n.size()
            &&& spare(*n) ==> opt_size(r) <= n.size() + 1 + one_if((*n) is Leaf)
        },
        tree is None ==> opt_size(r) == 1 && tree_tall(r) == 1,
        tree_half_full(tree) ==> tree_half_full(r),
        tree_filled(tree) ==> tree_filled(r),
        only_made(*old(pool), *final(pool), opt_size(r) - opt_size(tree)),
        final(pool).hollow(),
{
    let ghost m = opt_marks(tree);
    proof {
        lemma_tallied_none(*stats);
        lemma_tree_marks(tree);
    }
    match tree {
        None => {
            assert(m =~= Seq::empty());
            Some(first_leaf(start, end, pool))
        },
        Some(node) => {
            proof {
                lemma_run_fits(node, start as int);
            }
            let ghost h = node.tall();
            let r = insert_into(node, pos, start, end, stats, pool, Ghost(h));
            assert(m == node.marks());
            Some(r)
        },
    }
}

/// A leaf that holds the elements of the add buffer from `start` up to `end`.
fn first_leaf(start: usize, end: usize, pool: &mut NodePool) -> (r: Box<BNode>)
    requires
        start < end,
        old(pool).hollow(),
    ensures
        tree_wf(Some(r)),
        settled(r.marks()),
        holds_run(Seq::empty(), 0, start as int, end as int, r.marks()),
        r.tall() == 1,
        r.size() == 1,
        half_full_below(*r),
        filled(*r),
        only_made(*old(pool), *final(pool), 1),
        final(pool).hollow(),
{
    let piece = Piece { buffer: BufferKind::Add, start, end };
    let mut pieces: Vec<Piece> = Vec::new();
    pieces.push(piece);
    let r = pool.alloc_node(BNode::Leaf { pieces, subtree_len: end - start });
    proof {
        assert(pieces@ =~= seq![piece]);
        lemma_marks_one(piece);
        assert(r.wf(1));
        lemma_fits(*r);
    }
    r
}

proof fn lemma_run_fits(node: Box<BNode>, start: int)
    requires
        exists|file_len: int| within(opt_marks(Some(node)), file_len, start),
    ensures
        exists|file_len: int| within(node.marks(), file_len, start),
{
    let file_len = choose|file_len: int| within(opt_marks(Some(node)), file_len, start);
    assert(within(node.marks(), file_len, start));
}

/// Puts the elements of the add buffer from `start` up to `end` into the document before element
/// `pos`: by growing the piece before that position if they continue it, else as a piece of their
/// own.
fn insert_into(
    node: Box<BNode>,
    pos: usize,
    start: usize,
    end: usize,
    stats: &mut Stats,
    pool: &mut NodePool,
    Ghost(h): Ghost<nat>,
) -> (r: Box<BNode>)
    requires
        branches(*node),
        fits(*node),
        node.wf(h),
        settled(node.marks()),
        pos <= node.span(),
        start < end,
        node.span() + (end - start) <= usize::MAX,
        exists|file_len: int| within(node.marks(), file_len, start as int),
        old(pool).hollow(),
    ensures
        r.wf(r.tall()),
        settled(r.marks()),
        holds_run(node.marks(), pos as int, start as int, end as int, r.marks()),
        h <= r.tall() <= h + 1,
        tallied(
            *old(stats),
            *final(stats),
            one_if(inside(node.marks(), pos as int)) + (r.size() - node.size()),
            0,
            0,
        ),
        branches(*r),
        fits(*r),
        ends_at(node.marks(), pos as int, BufferKind::Add, start as int) ==> r.size()
            == node.size(),
        roomy(*node, 1 + one_if(inside(node.marks(), pos as int))) ==> r.size() == node.size(),
        spare(*node) ==> r.size() <= node.size() + 1 + one_if((*node) is Leaf),
        half_full_below(*node) ==> half_full_below(*r),
        filled(*node) ==> filled(*r),
        only_made(*old(pool), *final(pool), r.size() - node.size()),
        final(pool).hollow(),
{
    let ghost m = node.marks();
    let mut root = node;
    proof {
        lemma_node_opens(*root, h);
        lemma_node_coherent(*root, h);
    }
    if pos > 0 && grow_piece(&mut root, pos, start, end, stats, pool, Ghost(h)) {
        proof {
            lemma_tall(*root, h);
            lemma_fits(*node);
            lemma_fits(*root);
        }
        return root;
    }
    insert_apart(root, pos, start, end, stats, pool, Ghost(h))
}

/// Grows the piece that ends before element `pos` by the elements of the add buffer from `start`
/// up to `end`, if they continue it.
fn grow_piece(
    root: &mut BNode,
    pos: usize,
    start: usize,
    end: usize,
    stats: &mut Stats,
    pool: &mut NodePool,
    Ghost(h): Ghost<nat>,
) -> (did: bool)
    requires
        old(root).wf(h),
        settled(old(root).marks()),
        0 < pos <= old(root).span(),
        start < end,
        old(root).span() + (end - start) <= usize::MAX,
        exists|file_len: int| within(old(root).marks(), file_len, start as int),
        old(pool).hollow(),
    ensures
        did == ends_at(old(root).marks(), pos as int, BufferKind::Add, start as int),
        final(root).wf(h),
        did ==> {
            &&& settled(final(root).marks())
            &&& holds_run(
                old(root).marks(),
                pos as int,
                start as int,
                end as int,
                final(root).marks(),
            )
            &&& !inside(old(root).marks(), pos as int)
            &&& tallied(*old(stats), *final(stats), final(root).size() - old(root).size(), 0, 0)
            &&& kept_in_bounds(*old(root), *final(root))
            &&& heads(final(root).marks()) == heads(old(root).marks())
            &&& only_made(*old(pool), *final(pool), final(root).size() - old(root).size())
        },
        !did ==> {
            &&& *final(root) == *old(root)
            &&& *final(stats) == *old(stats)
            &&& *final(pool) == *old(pool)
        },
        final(pool).hollow(),
{
    let ghost m = root.marks();
    proof {
        lemma_node_opens(*root, h);
    }
    let did = root.try_extend_add_at_pos(pos, start, end, stats, pool, Ghost(h));
    proof {
        if did {
            lemma_extended(m, pos as int, start as int, end as int, *root, h);
        }
    }
    did
}

/// Puts the elements of the add buffer from `start` up to `end` into the document before element
/// `pos` as a piece of their own.
fn insert_apart(
    node: Box<BNode>,
    pos: usize,
    start: usize,
    end: usize,
    stats: &mut Stats,
    pool: &mut NodePool,
    Ghost(h): Ghost<nat>,
) -> (r: Box<BNode>)
    requires
        branches(*node),
        fits(*node),
        node.wf(h),
        settled(node.marks()),
        pos <= node.span(),
        start < end,
        node.span() + (end - start) <= usize::MAX,
        exists|file_len: int| within(node.marks(), file_len, start as int),
        !ends_at(node.marks(), pos as int, BufferKind::Add, start as int),
        old(pool).hollow(),
    ensures
        r.wf(r.tall()),
        settled(r.marks()),
        holds_run(node.marks(), pos as int, start as int, end as int, r.marks()),
        h <= r.tall() <= h + 1,
        tallied(
            *old(stats),
            *final(stats),
            one_if(inside(node.marks(), pos as int)) + (r.size() - node.size()),
            0,
            0,
        ),
        branches(*r),
        fits(*r),
        roomy(*node, 1 + one_if(inside(node.marks(), pos as int))) ==> r.size() == node.size(),
        spare(*node) ==> r.size() <= node.size() + 1 + one_if((*node) is Leaf),
        half_full_below(*node) ==> half_full_below(*r),
        filled(*node) ==> filled(*r),
        only_made(*old(pool), *final(pool), r.size() - node.size()),
        final(pool).hollow(),
{
    let ghost m = node.marks();
    let ghost counts = *stats;
    let mut root = node;
    let inserted = Piece { buffer: BufferKind::Add, start, end };
    proof {
        lemma_node_opens(*root, h);
        lemma_node_coherent(*root, h);
    }
    proof {
        lemma_fits(*root);
    }
    let right = root.insert_at(pos, inserted, stats, pool, Ghost(h));
    let ghost seen = *stats;
    let ghost made = root.size() + opt_size(right) - node.size();
    proof {
        lemma_insert_settled(m, pos as int, start as int, end as int, *root, right, h);
        assert(tallied(counts, seen, one_if(inside(m, pos as int)) + made, 0, 0));
    }
    let r = with_sibling(root, right, stats, pool, Ghost(h));
    proof {
        lemma_tallied_trans(
            counts,
            seen,
            *stats,
            one_if(inside(m, pos as int)) + made,
            0,
            0,
            r.size() - (root.size() + opt_size(right)),
            0,
            0,
        );
    }
    r
}

/// A piece that was grown merges with none of its neighbours.
proof fn lemma_extended(m: Seq<Mark>, pos: int, start: int, end: int, root: BNode, h: nat)
    requires
        settled(m),
        opens(m),
        start < end,
        exists|file_len: int| within(m, file_len, start),
        ends_at(m, pos, BufferKind::Add, start),
        root.wf(h),
        fused(grown(m, pos, BufferKind::Add, start, end), root.marks()),
    ensures
        settled(root.marks()),
        holds_run(m, pos, start, end, root.marks()),
        heads(root.marks()) == heads(m),
        !inside(m, pos),
{
    let g = grown(m, pos, BufferKind::Add, start, end);
    lemma_node_opens(root, h);
    lemma_node_coherent(root, h);
    lemma_grown_run(m, pos, start, end);
    assert(g[0] == m[0]);
    assert(opens(g));
    lemma_fused_equal(g, root.marks());
    lemma_heads_grown(m, pos, BufferKind::Add, start, end);
}

/// The node that holds the documents of `root` and `right`: a new one, if there is a `right`.
fn with_sibling(
    root: Box<BNode>,
    right: Tree,
    stats: &mut Stats,
    pool: &mut NodePool,
    Ghost(h): Ghost<nat>,
) -> (r: Box<BNode>)
    requires
        right is None ==> branches(*root),
        root.wf(h),
        right matches Some(n) ==> n.wf(h),
        root.span() + opt_marks(right).len() <= usize::MAX,
        old(pool).hollow(),
    ensures
        r.wf(r.tall()),
        h <= r.tall() <= h + 1,
        r.marks() == root.marks() + opt_marks(right),
        tallied(
            *old(stats),
            *final(stats),
            r.size() - (root.size() + opt_size(right)),
            0,
            0,
        ),
        branches(*r),
        fits(*root) && (right matches Some(n) ==> fits(*n)) ==> fits(*r),
        match right {
            Some(n) => {
                &&& half_full(*root) && half_full(*n) ==> half_full_below(*r)
                &&& filled(*root) && filled(*n) ==> filled(*r)
                &&& root.fill() >= min_fill(*root) && n.fill() >= min_fill(*n) ==> nearly_fed_kids(
                    *r,
                )
            },
            None => r == root,
        },
        right is Some ==> r.tall() == h + 1,
        r.size() == root.size() + opt_size(right) + one_if(right is Some),
        only_made(*old(pool), *final(pool), r.size() - (root.size() + opt_size(right))),
        final(pool).hollow(),
{
    proof {
        lemma_tall(*root, h);
        lemma_tallied_none(*stats);
    }
    match right {
        None => {
            assert(root.marks() + opt_marks(None) =~= root.marks());
            root
        },
        Some(second) => {
            stats.note_split();
            let subtree_len = root.len() + second.len();
            let mut children: Vec<Box<BNode>> = Vec::new();
            children.push(root);
            children.push(second);
            let top = pool.alloc_node(BNode::Internal { children, subtree_len });
            proof {
                assert(children@ =~= seq![root, second]);
                lemma_new_root(*top, root, second, h);
                lemma_two_kids(*top, root, second);
            }
            top
        },
    }
}

/// A piece put in as it is merges with none of its neighbours.
proof fn lemma_insert_settled(
    m: Seq<Mark>,
    pos: int,
    start: int,
    end: int,
    root: BNode,
    right: Tree,
    h: nat,
)
    requires
        settled(m),
        coherent(m),
        opens(m),
        0 <= pos <= m.len(),
        start < end,
        exists|file_len: int| within(m, file_len, start),
        !ends_at(m, pos, BufferKind::Add, start),
        root.wf(h),
        right matches Some(n) ==> n.wf(h),
        fused(
            splice(m, pos, run(BufferKind::Add, start, end, true)),
            root.marks() + opt_marks(right),
        ),
    ensures
        root.marks().len() + opt_marks(right).len() == m.len() + (end - start),
        root.span() == root.marks().len(),
        right matches Some(n) ==> n.span() == n.marks().len(),
        settled(root.marks() + opt_marks(right)),
        holds_run(m, pos, start, end, root.marks() + opt_marks(right)),
        heads(root.marks() + opt_marks(right)) == heads(m) + 1 + one_if(inside(m, pos)),
{
    let x = run(BufferKind::Add, start, end, true);
    let s = splice(m, pos, x);
    let whole = root.marks() + opt_marks(right);
    lemma_splice_run(m, pos, start, end);
    lemma_node_opens(root, h);
    lemma_node_coherent(root, h);
    match right {
        Some(n) => {
            lemma_node_opens(*n, h);
            lemma_node_coherent(*n, h);
        },
        None => {},
    }
    crate::piece::lemma_coherent_add(root.marks(), opt_marks(right));
    assert(opens(s)) by {
        if pos > 0 {
            assert(s[0] == m[0]);
        } else {
            assert(s[0] == x[0]);
        }
    }
    assert(opens(whole)) by {
        if root.marks().len() == 0 {
            assert(whole =~= opt_marks(right));
        } else {
            assert(whole[0] == root.marks()[0]);
        }
    }
    lemma_fused_equal(s, whole);
    lemma_heads_spliced(m, pos, start, end);
}

/// How many pieces there are once a run of elements was put in as a piece.
pub(crate) proof fn lemma_heads_spliced(m: Seq<Mark>, pos: int, start: int, end: int)
    requires
        0 <= pos <= m.len(),
        opens(m),
        start < end,
    ensures
        heads(splice(m, pos, run(BufferKind::Add, start, end, true))) == heads(m) + 1 + one_if(
            inside(m, pos),
        ),
{
    lemma_heads_splice(m, pos, run(BufferKind::Add, start, end, true));
    lemma_heads_one_run(start, end);
}

proof fn lemma_heads_one_run(start: int, end: int)
    requires
        start < end,
    ensures
        heads(run(BufferKind::Add, start, end, true)) == 1,
    decreases end - start,
{
    let x = run(BufferKind::Add, start, end, true);
    assert(x =~= seq![x[0]] + x.skip(1));
    lemma_heads_add(seq![x[0]], x.skip(1));
    lemma_no_heads(x.skip(1));
    reveal_with_fuel(heads, 2);
}

pub(crate) proof fn lemma_cut_settled_but(m: Seq<Mark>, pos: int, len: int, n: Seq<Mark>)
    requires
        0 <= pos,
        0 <= len,
        pos + len <= m.len(),
        settled(m),
        opens(m),
        fused(cut(m, pos, len), n),
    ensures
        settled_but(cut(m, pos, len), pos),
        settled_but(n, pos),
        opens(cut(m, pos, len)),
        pos < cut(m, pos, len).len() ==> cut(m, pos, len)[pos].head,
{
    let c = cut(m, pos, len);
    assert forall|k: int|
        0 <= k < c.len() && k != pos && (#[trigger] c[k]).head implies !joined(c, k) by {
        if k < pos {
            assert(c[k] == m[k]);
            if k > 0 {
                assert(c[k - 1] == m[k - 1]);
                assert(!joined(m, k));
            }
        } else {
            assert(c[k] == m[k + len]);
            assert(!joined(m, k + len));
            assert(c[k - 1].at == m[k - 1 + len].at);
        }
    }
    assert forall|k: int|
        0 <= k < n.len() && k != pos && (#[trigger] n[k]).head implies !joined(n, k) by {
        assert(c[k].head);
        assert(c[k].at == n[k].at);
        if k > 0 {
            assert(c[k - 1].at == n[k - 1].at);
        }
    }
    if c.len() > 0 && pos > 0 {
        assert(c[0] == m[0]);
    }
}

/// Splits a root that has one entry more than it is to have, as an insertion does.
fn split_root(
    root: Box<BNode>,
    stats: &mut Stats,
    pool: &mut NodePool,
    Ghost(h): Ghost<nat>,
) -> (r: Box<BNode>)
    requires
        root.wf(h),
        branches(*root),
        fits_below(*root),
        root.fill() <= max_fill(*root) + 1,
        root.span() <= usize::MAX,
        old(pool).hollow(),
    ensures
        r.wf(r.tall()),
        h <= r.tall() <= h + 1,
        r.marks() == root.marks(),
        branches(*r),
        fits(*r),
        root.fill() <= max_fill(*root) ==> r == root,
        root.fill() > max_fill(*root) ==> nearly_fed_kids(*r),
        filled(*root) ==> filled(*r),
        tallied(*old(stats), *final(stats), r.size() - root.size(), 0, 0),
        r.size() >= root.size(),
        only_made(*old(pool), *final(pool), r.size() - root.size()),
        final(pool).hollow(),
{
    let ghost counts = *stats;
    proof {
        lemma_tall(*root, h);
        lemma_fits(*root);
        lemma_tallied_none(counts);
        lemma_node_opens(*root, h);
    }
    let mut left = root;
    if !is_overfull(&left) {
        return left;
    }
    stats.note_split();
    let right = split_half(&mut left, pool, Ghost(h));
    let ghost seen = *stats;
    let ghost made = left.size() + right.size() - root.size();
    proof {
        lemma_fits_halved(*root, *left, *right);
        if filled(*root) {
            lemma_filled_halved(*root, *left, *right);
        }
        lemma_fits(*left);
        lemma_fits(*right);
        lemma_node_opens(*left, h);
        lemma_node_opens(*right, h);
    }
    let ghost first = left;
    let ghost second = right;
    let r = with_sibling(left, Some(right), stats, pool, Ghost(h));
    proof {
        lemma_tallied_trans(
            counts,
            seen,
            *stats,
            1,
            0,
            0,
            r.size() - (first.size() + second.size()),
            0,
            0,
        );
        assert(made == 1);
    }
    r
}

/// Takes `len` elements from element `pos` on out of the document.
pub(crate) fn delete_run(
    node: Box<BNode>,
    pos: usize,
    len: usize,
    stats: &mut Stats,
    pool: &mut NodePool,
) -> (r: Tree)
    requires
        node.wf(node.tall()),
        fits(*node),
        settled(node.marks()),
        distinct(node.marks()),
        distinct(cut(node.marks(), pos as int, len as int)),
        0 < len,
        pos + len <= node.span(),
        old(pool).hollow(),
    ensures
        tree_wf(r),
        settled(opt_marks(r)),
        fused(cut(node.marks(), pos as int, len as int), opt_marks(r)),
        tree_tall(r) <= node.tall() + one_if(
            inside(node.marks(), pos as int) && inside(node.marks(), pos + len),
        ),
        r matches Some(n) ==> (n.tall() >= node.tall() ==> nearly_fed_kids(*n)),
        filled(*node) ==> tree_filled(r),
        half_full_below(*node) && !joined(cut(node.marks(), pos as int, len as int), pos as int)
            && heads(cut(node.marks(), pos as int, len as int)) >= heads(node.marks())
            ==> final(pool).merged() == old(pool).merged(),
        deletion_counts(
            *old(stats),
            *final(stats),
            one_if(inside(node.marks(), pos as int)) + one_if(inside(node.marks(), pos + len)),
            one_if(joined(cut(node.marks(), pos as int, len as int), pos as int)),
            *old(pool),
            *final(pool),
        ),
        calm(node.marks(), pos as int, len as int, roomy(*node, 1)) ==> final(pool).made() == old(
            pool,
        ).made(),
        books_kept(*old(pool), *final(pool), node.size() as int, opt_size(r) as int),
        final(pool).hollow(),
{
    let ghost m = node.marks();
    let ghost h = node.tall();
    let ghost counts = *stats;
    let ghost books = *pool;
    let ghost c = cut(m, pos as int, len as int);
    let mut root = node;
    proof {
        lemma_node_opens(*root, h);
        lemma_node_coherent(*root, h);
    }
    root.delete_range(pos, len, stats, pool, Ghost(h));
    let ghost n = root.marks();
    let ghost seen = *stats;
    let ghost kept = *pool;
    proof {
        lemma_cut_settled_but(m, pos as int, len as int, n);
    }
    if root.len() == 0 {
        proof {
            assert(n.len() == 0) by {
                lemma_ok_span(*root, h);
            }
            assert(n =~= Seq::empty());
            assert(c =~= Seq::empty());
        }
        pool.recycle(root);
        None
    } else {
        proof {
            lemma_distinct_fused(c, n);
            lemma_node_opens(*root, h);
            lemma_node_coherent(*root, h);
        }
        coalesce_seam(&mut root, pos, stats, pool, Ghost(h));
        let ghost after = root.marks();
        let ghost last = *root;
        let ghost joined_books = *pool;
        proof {
            lemma_tall(*root, h);
            lemma_node_opens(*root, h);
            lemma_node_coherent(*root, h);
            lemma_fused_trans(c, n, after);
            lemma_heads_seam(c, after, pos as int);
            if !joined(c, pos as int) {
                lemma_seam_closed(c, n, pos as int);
                lemma_fused_equal(c, n);
            }
            lemma_delete_counts(
                m,
                pos as int,
                len as int,
                n,
                after,
                books,
                kept,
                joined_books,
                counts,
                seen,
                *stats,
            );
        }
        let top = compact_root(root, pool, Ghost(h));
        proof {
            lemma_fits(*node);
            lemma_fits(*top);
            lemma_node_opens(*top, top.tall());
            if top.fill() > max_fill(*top) {
                lemma_tall(*top, h);
            }
        }
        let ghost whole = *stats;
        let ghost level = top.tall();
        let ghost compacted = *pool;
        let r = split_root(top, stats, pool, Ghost(level));
        proof {
            lemma_node_opens(*r, r.tall());
            let cuts = one_if(inside(m, pos as int)) + one_if(inside(m, pos + len));
            let joins = one_if(joined(c, pos as int));
            lemma_tallied_trans(
                counts,
                whole,
                *stats,
                cuts + (compacted.made() - books.made()),
                joins + (compacted.merged() - books.merged()),
                joins,
                pool.made() - compacted.made(),
                0,
                0,
            );
        }
        Some(r)
    }
}

/// Where no pieces could be merged but perhaps those that meet at `pos`, and these do not continue
/// each other, none could.
proof fn lemma_seam_closed(c: Seq<Mark>, n: Seq<Mark>, pos: int)
    requires
        fused(c, n),
        settled_but(c, pos),
        settled_but(n, pos),
        !joined(c, pos),
    ensures
        settled(c),
        settled(n),
{
    assert forall|k: int| 0 <= k < c.len() && c[k].head implies !#[trigger] joined(c, k) by {}
    assert forall|k: int| 0 <= k < n.len() && n[k].head implies !#[trigger] joined(n, k) by {
        if k == pos {
            assert(c[k].at == n[k].at);
            if k > 0 {
                assert(c[k - 1].at == n[k - 1].at);
            }
        }
    }
}

proof fn lemma_distinct_fused(a: Seq<Mark>, b: Seq<Mark>)
    requires
        fused(a, b),
        distinct(a),
    ensures
        distinct(b),
{
    assert forall|i: int, j: int|
        #![trigger b[i], b[j]]
        0 <= i < j < b.len() implies b[i].buffer != b[j].buffer || b[i].at != b[j].at by {
        assert(a[i].at == b[i].at);
        assert(a[j].at == b[j].at);
    }
}

proof fn lemma_ok_span(n: BNode, h: nat)
    requires
        n.ok(h),
    ensures
        n.span() == n.marks().len(),
{
}

/// What was counted of a deletion and of merging the pieces that then meet.
proof fn lemma_delete_counts(
    m: Seq<Mark>,
    pos: int,
    len: int,
    n: Seq<Mark>,
    after: Seq<Mark>,
    p: NodePool,
    q: NodePool,
    r: NodePool,
    s: Stats,
    t: Stats,
    u: Stats,
)
    requires
        delete_tally(m, pos, len, n, p, q, s, t),
        seam_tally(n, after, q, r, t, u),
        heads(cut(m, pos, len)) - heads(after) == one_if(joined(cut(m, pos, len), pos)),
    ensures
        deletion_counts(
            s,
            u,
            one_if(inside(m, pos)) + one_if(inside(m, pos + len)),
            one_if(joined(cut(m, pos, len), pos)),
            p,
            r,
        ),
{
    let cuts = one_if(inside(m, pos)) + one_if(inside(m, pos + len));
    let j1 = heads(cut(m, pos, len)) - heads(n);
    let j2 = heads(n) - heads(after);
    lemma_tallied_trans(
        s,
        t,
        u,
        cuts + (q.made() - p.made()),
        j1 + (q.merged() - p.merged()),
        j1,
        0int + (r.made() - q.made()),
        j2 + (r.merged() - q.merged()),
        j2,
    );
}

} // verus!
