//! An index over a list of pieces: a tree whose nodes stand in one array and name each other by
//! their places in it.
use vstd::prelude::*;

use crate::list::pieces_len;
use crate::piece::{all_sound, lemma_marks_add, lemma_marks_opens, marks_of, opens, Piece};
use crate::tree::{find_in_leaf, lemma_lies_within, lies_at, INTERNAL_MAX_CHILDREN, LEAF_MAX_PIECES};

verus! {

pub type CompactNodeId = usize;

/// A node of the index, which records how many elements its pieces stand for.
#[derive(Debug)]
pub enum CompactNode {
    Leaf { pieces: Vec<Piece>, subtree_len: usize },
    Internal { children: Vec<CompactNodeId>, subtree_len: usize },
}

impl CompactNode {
    /// The recorded number of elements.
    pub open spec fn span(self) -> usize {
        match self {
            CompactNode::Leaf { subtree_len, .. } => subtree_len,
            CompactNode::Internal { subtree_len, .. } => subtree_len,
        }
    }
}

/// The pieces below node `id`, in order. A node has only nodes before it as children.
pub open spec fn node_pieces(nodes: Seq<CompactNode>, id: int) -> Seq<Piece>
    decreases id, 1nat, 0nat,
{
    if 0 <= id < nodes.len() {
        match nodes[id] {
            CompactNode::Leaf { pieces, .. } => pieces@,
            CompactNode::Internal { children, .. } => kids_pieces(nodes, children@, id),
        }
    } else {
        Seq::empty()
    }
}

/// The pieces below those of the given nodes that come before node `below`, in order.
pub open spec fn kids_pieces(nodes: Seq<CompactNode>, ids: Seq<usize>, below: int) -> Seq<Piece>
    decreases below, 0nat, ids.len(),
{
    if ids.len() == 0 {
        Seq::empty()
    } else {
        kids_pieces(nodes, ids.drop_last(), below) + (if ids.last() < below {
            node_pieces(nodes, ids.last() as int)
        } else {
            Seq::empty()
        })
    }
}

/// A valid node of height `h`: every leaf is `h - 1` levels down, no node is empty or overfull,
/// and the recorded lengths are right.
pub open spec fn node_ok(nodes: Seq<CompactNode>, id: int, h: nat) -> bool
    decreases h,
{
    &&& 0 <= id < nodes.len()
    &&& match nodes[id] {
        CompactNode::Leaf { pieces, subtree_len } => {
            &&& h == 1
            &&& 0 < pieces@.len() <= LEAF_MAX_PIECES
            &&& all_sound(pieces@)
            &&& subtree_len == marks_of(pieces@).len()
        },
        CompactNode::Internal { children, subtree_len } => {
            &&& h > 1
            &&& 0 < children@.len() <= INTERNAL_MAX_CHILDREN
            &&& forall|j: int|
                0 <= j < children@.len() ==> #[trigger] children@[j] < id && node_ok(
                    nodes,
                    children@[j] as int,
                    (h - 1) as nat,
                )
            &&& subtree_len == marks_of(kids_pieces(nodes, children@, id)).len()
        },
    }
}

/// Valid nodes of height `h`, all of them before node `below`.
pub open spec fn ids_ok(nodes: Seq<CompactNode>, ids: Seq<usize>, below: int, h: nat) -> bool {
    forall|j: int|
        0 <= j < ids.len() ==> #[trigger] ids[j] < below && node_ok(nodes, ids[j] as int, h)
}

/// `n / size`, rounded up.
pub open spec fn groups(n: int, size: int) -> int {
    (n + (size - 1)) / size
}

/// How many levels there are above `n` nodes, when each node has as many children as it can.
pub open spec fn tiers(n: nat) -> nat
    decreases n,
{
    if n <= 1 {
        0
    } else {
        1 + tiers(groups(n as int, INTERNAL_MAX_CHILDREN as int) as nat)
    }
}

/// The height of the index over `n` pieces.
pub open spec fn levels_for(n: nat) -> nat {
    if n == 0 {
        0
    } else {
        1 + tiers(groups(n as int, LEAF_MAX_PIECES as int) as nat)
    }
}

/// The index is a valid one over the pieces `ps`.
pub open spec fn index_ok(
    nodes: Seq<CompactNode>,
    root: Option<CompactNodeId>,
    ps: Seq<Piece>,
) -> bool {
    match root {
        None => ps.len() == 0,
        Some(r) => {
            &&& ps.len() > 0
            &&& node_ok(nodes, r as int, levels_for(ps.len()))
            &&& node_pieces(nodes, r as int) == ps
        },
    }
}

proof fn lemma_kids_below(nodes: Seq<CompactNode>, ids: Seq<usize>, b: int, c: int)
    requires
        forall|j: int| 0 <= j < ids.len() ==> #[trigger] ids[j] < b && ids[j] < c,
    ensures
        kids_pieces(nodes, ids, b) == kids_pieces(nodes, ids, c),
    decreases ids.len(),
{
    if ids.len() > 0 {
        assert(ids.last() == ids[ids.len() - 1]);
        assert forall|j: int| 0 <= j < ids.drop_last().len() implies #[trigger] ids.drop_last()[j]
            < b && ids.drop_last()[j] < c by {
            assert(ids[j] < b);
        }
        lemma_kids_below(nodes, ids.drop_last(), b, c);
    }
}

proof fn lemma_kids_add(nodes: Seq<CompactNode>, a: Seq<usize>, b: Seq<usize>, below: int)
    ensures
        kids_pieces(nodes, a + b, below) == kids_pieces(nodes, a, below) + kids_pieces(
            nodes,
            b,
            below,
        ),
    decreases b.len(),
{
    if b.len() == 0 {
        assert(a + b =~= a);
        assert(kids_pieces(nodes, a, below) + kids_pieces(nodes, b, below) =~= kids_pieces(
            nodes,
            a,
            below,
        ));
    } else {
        lemma_kids_add(nodes, a, b.drop_last(), below);
        assert((a + b).drop_last() =~= a + b.drop_last());
        assert((a + b).last() == b.last());
        assert(kids_pieces(nodes, a + b, below) =~= kids_pieces(nodes, a, below) + kids_pieces(
            nodes,
            b,
            below,
        ));
    }
}

/// Nodes appended to the array change nothing below a valid node.
proof fn lemma_node_kept(nodes: Seq<CompactNode>, more: Seq<CompactNode>, id: int, h: nat)
    requires
        node_ok(nodes, id, h),
        nodes.len() <= more.len(),
        forall|i: int| 0 <= i < nodes.len() ==> #[trigger] more[i] == nodes[i],
    ensures
        node_ok(more, id, h),
        node_pieces(more, id) == node_pieces(nodes, id),
    decreases h, 1nat, 0nat,
{
    assert(more[id] == nodes[id]);
    match nodes[id] {
        CompactNode::Leaf { .. } => {},
        CompactNode::Internal { children, .. } => {
            lemma_kids_kept(nodes, more, children@, id, (h - 1) as nat);
            assert forall|j: int| 0 <= j < children@.len() implies #[trigger] children@[j] < id
                && node_ok(more, children@[j] as int, (h - 1) as nat) by {
                lemma_node_kept(nodes, more, children@[j] as int, (h - 1) as nat);
            }
        },
    }
}

proof fn lemma_kids_kept(
    nodes: Seq<CompactNode>,
    more: Seq<CompactNode>,
    ids: Seq<usize>,
    below: int,
    h: nat,
)
    requires
        ids_ok(nodes, ids, below, h),
        nodes.len() <= more.len(),
        forall|i: int| 0 <= i < nodes.len() ==> #[trigger] more[i] == nodes[i],
    ensures
        ids_ok(more, ids, below, h),
        kids_pieces(more, ids, below) == kids_pieces(nodes, ids, below),
    decreases h, 2nat, ids.len(),
{
    if ids.len() > 0 {
        let last = ids[ids.len() - 1];
        assert(last < below);
        assert forall|j: int| 0 <= j < ids.drop_last().len() implies #[trigger] ids.drop_last()[j]
            < below && node_ok(nodes, ids.drop_last()[j] as int, h) by {
            assert(ids[j] < below);
        }
        lemma_kids_kept(nodes, more, ids.drop_last(), below, h);
        lemma_node_kept(nodes, more, last as int, h);
        assert forall|j: int| 0 <= j < ids.len() implies #[trigger] ids[j] < below && node_ok(
            more,
            ids[j] as int,
            h,
        ) by {
            if j < ids.len() - 1 {
                assert(ids.drop_last()[j] < below);
            }
        }
    }
}

/// The pieces below valid nodes are sound, and there are some.
pub(crate) proof fn lemma_node_sound(nodes: Seq<CompactNode>, id: int, h: nat)
    requires
        node_ok(nodes, id, h),
    ensures
        all_sound(node_pieces(nodes, id)),
        node_pieces(nodes, id).len() > 0,
        nodes[id].span() == marks_of(node_pieces(nodes, id)).len(),
    decreases h, 1nat, 0nat,
{
    match nodes[id] {
        CompactNode::Leaf { .. } => {},
        CompactNode::Internal { children, .. } => {
            assert(children@[0] < id);
            lemma_kids_sound(nodes, children@, id, (h - 1) as nat);
        },
    }
}

proof fn lemma_kids_sound(nodes: Seq<CompactNode>, ids: Seq<usize>, below: int, h: nat)
    requires
        ids_ok(nodes, ids, below, h),
    ensures
        all_sound(kids_pieces(nodes, ids, below)),
        kids_pieces(nodes, ids, below).len() >= ids.len(),
    decreases h, 2nat, ids.len(),
{
    if ids.len() > 0 {
        let last = ids[ids.len() - 1];
        assert(last < below);
        assert forall|j: int| 0 <= j < ids.drop_last().len() implies #[trigger] ids.drop_last()[j]
            < below && node_ok(nodes, ids.drop_last()[j] as int, h) by {
            assert(ids[j] < below);
        }
        lemma_kids_sound(nodes, ids.drop_last(), below, h);
        lemma_node_sound(nodes, last as int, h);
        let a = kids_pieces(nodes, ids.drop_last(), below);
        let b = node_pieces(nodes, last as int);
        assert forall|k: int| 0 <= k < (a + b).len() implies (#[trigger] (a + b)[k]).sound() by {
            if k < a.len() {
                assert(a[k].sound());
            } else {
                assert(b[k - a.len()].sound());
            }
        }
    }
}

/// The marks below node `j` of a list of nodes lie between those of the nodes before and after.
proof fn lemma_kids_at(nodes: Seq<CompactNode>, ids: Seq<usize>, below: int, j: int, h: nat)
    requires
        ids_ok(nodes, ids, below, h),
        0 <= j < ids.len(),
    ensures
        marks_of(kids_pieces(nodes, ids, below)) == marks_of(
            kids_pieces(nodes, ids.take(j), below),
        ) + marks_of(node_pieces(nodes, ids[j] as int)) + marks_of(
            kids_pieces(nodes, ids.skip(j + 1), below),
        ),
        marks_of(kids_pieces(nodes, ids.take(j + 1), below)) == marks_of(
            kids_pieces(nodes, ids.take(j), below),
        ) + marks_of(node_pieces(nodes, ids[j] as int)),
        opens(marks_of(kids_pieces(nodes, ids.skip(j + 1), below))),
        nodes[ids[j] as int].span() == marks_of(node_pieces(nodes, ids[j] as int)).len(),
{
    let front = ids.take(j);
    let back = ids.skip(j + 1);
    assert(ids[j] < below);
    assert(ids.take(j + 1).drop_last() =~= front);
    assert(ids =~= ids.take(j + 1) + back);
    lemma_kids_add(nodes, ids.take(j + 1), back, below);
    lemma_marks_add(kids_pieces(nodes, front, below), node_pieces(nodes, ids[j] as int));
    lemma_marks_add(
        kids_pieces(nodes, ids.take(j + 1), below),
        kids_pieces(nodes, back, below),
    );
    assert forall|i: int| 0 <= i < back.len() implies #[trigger] back[i] < below && node_ok(
        nodes,
        back[i] as int,
        h,
    ) by {
        assert(ids[i + j + 1] < below);
    }
    lemma_kids_sound(nodes, back, below, h);
    lemma_marks_opens(kids_pieces(nodes, back, below));
    lemma_node_sound(nodes, ids[j] as int, h);
}

/// The recorded number of elements below node `id`.
pub(crate) fn node_len(nodes: &Vec<CompactNode>, id: CompactNodeId) -> (n: usize)
    requires
        id < nodes@.len(),
    ensures
        n == nodes@[id as int].span(),
{
    match &nodes[id] {
        CompactNode::Leaf { subtree_len, .. } => *subtree_len,
        CompactNode::Internal { subtree_len, .. } => *subtree_len,
    }
}

/// The piece in which element `index` below node `node_id` lies, the place in that piece, and the
/// position at which the piece begins, counted from `base`.
pub(crate) fn find_in_index<'a>(
    nodes: &'a Vec<CompactNode>,
    node_id: CompactNodeId,
    index: usize,
    base: usize,
    Ghost(h): Ghost<nat>,
) -> (r: Option<(&'a Piece, usize, usize)>)
    requires
        node_ok(nodes@, node_id as int, h),
        base + marks_of(node_pieces(nodes@, node_id as int)).len() <= usize::MAX,
    ensures
        r is Some <==> index < marks_of(node_pieces(nodes@, node_id as int)).len(),
        r matches Some((p, offset, start)) ==> {
            &&& start + offset == base + index
            &&& offset < p.end - p.start
            &&& base <= start
            &&& lies_at(marks_of(node_pieces(nodes@, node_id as int)), *p, start - base)
        },
    decreases h,
{
    match &nodes[node_id] {
        CompactNode::Leaf { pieces, subtree_len } => {
            if index < *subtree_len {
                Some(find_in_leaf(pieces, index, base))
            } else {
                None
            }
        },
        CompactNode::Internal { children, .. } => {
            let ghost k = (h - 1) as nat;
            let ghost id = node_id as int;
            let mut rest: usize = index;
            let mut consumed: usize = 0;
            for i in 0..children.len()
                invariant
                    h > 1,
                    k == h - 1,
                    id == node_id,
                    node_id < nodes@.len(),
                    ids_ok(nodes@, children@, id, k),
                    node_pieces(nodes@, id) == kids_pieces(nodes@, children@, id),
                    base + marks_of(kids_pieces(nodes@, children@, id)).len() <= usize::MAX,
                    consumed == marks_of(kids_pieces(nodes@, children@.take(i as int), id)).len(),
                    rest + consumed == index,
            {
                let child = children[i];
                proof {
                    assert(children@[i as int] < id);
                    lemma_kids_at(nodes@, children@, id, i as int, k);
                }
                let child_len = node_len(nodes, child);
                if rest < child_len {
                    let r = find_in_index(nodes, child, rest, base + consumed, Ghost(k));
                    proof {
                        if let Some((p, offset, start)) = r {
                            lemma_lies_within(
                                marks_of(kids_pieces(nodes@, children@.take(i as int), id)),
                                marks_of(node_pieces(nodes@, child as int)),
                                marks_of(kids_pieces(nodes@, children@.skip(i + 1), id)),
                                *p,
                                start - (base + consumed),
                            );
                        }
                    }
                    return r;
                }
                rest -= child_len;
                consumed += child_len;
            }
            assert(children@.take(children@.len() as int) =~= children@);
            None
        },
    }
}

proof fn lemma_marks_within(ps: Seq<Piece>, from: int, to: int)
    requires
        0 <= from <= to <= ps.len(),
    ensures
        marks_of(ps.take(to)).len() == marks_of(ps.take(from)).len() + marks_of(
            ps.subrange(from, to),
        ).len(),
        marks_of(ps.take(to)).len() <= marks_of(ps).len(),
{
    assert(ps.take(to) =~= ps.take(from) + ps.subrange(from, to));
    lemma_marks_add(ps.take(from), ps.subrange(from, to));
    assert(ps =~= ps.take(to) + ps.skip(to));
    lemma_marks_add(ps.take(to), ps.skip(to));
}

/// One more node at the end of a list of nodes.
proof fn lemma_ids_push(
    nodes: Seq<CompactNode>,
    more: Seq<CompactNode>,
    ids: Seq<usize>,
    id: usize,
    h: nat,
)
    requires
        ids_ok(nodes, ids, nodes.len() as int, h),
        more.len() == nodes.len() + 1,
        forall|i: int| 0 <= i < nodes.len() ==> #[trigger] more[i] == nodes[i],
        id == nodes.len(),
        node_ok(more, id as int, h),
    ensures
        ids_ok(more, ids.push(id), more.len() as int, h),
        kids_pieces(more, ids.push(id), more.len() as int) == kids_pieces(
            nodes,
            ids,
            nodes.len() as int,
        ) + node_pieces(more, id as int),
{
    lemma_kids_kept(nodes, more, ids, nodes.len() as int, h);
    assert forall|j: int| 0 <= j < ids.len() implies #[trigger] ids[j] < nodes.len() && ids[j]
        < more.len() by {}
    lemma_kids_below(more, ids, nodes.len() as int, more.len() as int);
    assert(ids.push(id).drop_last() =~= ids);
    assert forall|j: int| 0 <= j < ids.push(id).len() implies #[trigger] ids.push(id)[j]
        < more.len() && node_ok(more, ids.push(id)[j] as int, h) by {
        if j < ids.len() {
            assert(ids[j] < nodes.len());
        }
    }
}

/// Appends a leaf with the pieces from `from` up to `to`.
fn push_leaf(nodes: &mut Vec<CompactNode>, pieces: &Vec<Piece>, from: usize, to: usize) -> (id:
    CompactNodeId)
    requires
        all_sound(pieces@),
        marks_of(pieces@).len() <= usize::MAX,
        from < to <= pieces@.len(),
        to - from <= LEAF_MAX_PIECES,
    ensures
        id == old(nodes)@.len(),
        final(nodes)@.len() == old(nodes)@.len() + 1,
        forall|i: int| 0 <= i < old(nodes)@.len() ==> #[trigger] final(nodes)@[i] == old(nodes)@[i],
        node_ok(final(nodes)@, id as int, 1),
        node_pieces(final(nodes)@, id as int) == pieces@.subrange(from as int, to as int),
{
    let mut chunk: Vec<Piece> = Vec::new();
    for j in from..to
        invariant
            from <= j <= to <= pieces@.len(),
            chunk@ == pieces@.subrange(from as int, j as int),
    {
        chunk.push(pieces[j]);
        assert(chunk@ =~= pieces@.subrange(from as int, j + 1));
    }
    proof {
        lemma_marks_within(pieces@, from as int, to as int);
        assert forall|i: int| 0 <= i < chunk@.len() implies (#[trigger] chunk@[i]).sound() by {
            assert(pieces@[from + i].sound());
        }
    }
    let subtree_len = pieces_len(&chunk);
    let id = nodes.len();
    nodes.push(CompactNode::Leaf { pieces: chunk, subtree_len });
    id
}

/// Appends leaves for all the pieces. Gives their places.
fn push_leaves(nodes: &mut Vec<CompactNode>, pieces: &Vec<Piece>) -> (level: Vec<CompactNodeId>)
    requires
        old(nodes)@.len() == 0,
        all_sound(pieces@),
        marks_of(pieces@).len() <= usize::MAX,
    ensures
        ids_ok(final(nodes)@, level@, final(nodes)@.len() as int, 1),
        kids_pieces(final(nodes)@, level@, final(nodes)@.len() as int) == pieces@,
        level@.len() == groups(pieces@.len() as int, LEAF_MAX_PIECES as int),
{
    let mut level: Vec<CompactNodeId> = Vec::new();
    let mut from: usize = 0;
    assert(kids_pieces(nodes@, level@, 0) =~= pieces@.take(0));
    while from < pieces.len()
        invariant
            all_sound(pieces@),
            marks_of(pieces@).len() <= usize::MAX,
            from <= pieces@.len(),
            from == pieces@.len() || from == LEAF_MAX_PIECES * level@.len(),
            level@.len() == groups(from as int, LEAF_MAX_PIECES as int),
            ids_ok(nodes@, level@, nodes@.len() as int, 1),
            kids_pieces(nodes@, level@, nodes@.len() as int) == pieces@.take(from as int),
        decreases pieces@.len() - from,
    {
        let left = pieces.len() - from;
        let to = if left > LEAF_MAX_PIECES {
            from + LEAF_MAX_PIECES
        } else {
            pieces.len()
        };
        let ghost before = nodes@;
        let ghost ids = level@;
        let id = push_leaf(nodes, pieces, from, to);
        level.push(id);
        proof {
            lemma_ids_push(before, nodes@, ids, id, 1);
            assert(pieces@.take(to as int) =~= pieces@.take(from as int) + pieces@.subrange(
                from as int,
                to as int,
            ));
        }
        from = to;
    }
    assert(pieces@.take(pieces@.len() as int) =~= pieces@);
    level
}

/// Appends a node with the nodes from `from` up to `to` of `level` as its children.
fn push_parent(
    nodes: &mut Vec<CompactNode>,
    level: &Vec<CompactNodeId>,
    from: usize,
    to: usize,
    Ghost(h): Ghost<nat>,
) -> (id: CompactNodeId)
    requires
        0 < h,
        ids_ok(old(nodes)@, level@, old(nodes)@.len() as int, h),
        marks_of(kids_pieces(old(nodes)@, level@, old(nodes)@.len() as int)).len() <= usize::MAX,
        from < to <= level@.len(),
        to - from <= INTERNAL_MAX_CHILDREN,
    ensures
        id == old(nodes)@.len(),
        final(nodes)@.len() == old(nodes)@.len() + 1,
        forall|i: int| 0 <= i < old(nodes)@.len() ==> #[trigger] final(nodes)@[i] == old(nodes)@[i],
        node_ok(final(nodes)@, id as int, h + 1),
        node_pieces(final(nodes)@, id as int) == kids_pieces(
            old(nodes)@,
            level@.subrange(from as int, to as int),
            old(nodes)@.len() as int,
        ),
{
    let ghost before = nodes@;
    let ghost below = nodes@.len() as int;
    let mut children: Vec<CompactNodeId> = Vec::new();
    let mut subtree_len: usize = 0;
    for j in from..to
        invariant
            from <= j <= to <= level@.len(),
            nodes@ == before,
            below == before.len(),
            ids_ok(before, level@, below, h),
            marks_of(kids_pieces(before, level@, below)).len() <= usize::MAX,
            children@ == level@.subrange(from as int, j as int),
            subtree_len == marks_of(kids_pieces(before, children@, below)).len(),
    {
        proof {
            assert(level@[j as int] < below);
            lemma_kids_sum(before, level@, below, from as int, j as int, h);
            assert(children@.push(level@[j as int]) =~= level@.subrange(from as int, j + 1));
        }
        subtree_len += node_len(nodes, level[j]);
        children.push(level[j]);
    }
    let id = nodes.len();
    let ghost ids = children@;
    proof {
        assert forall|j: int| 0 <= j < ids.len() implies #[trigger] ids[j] < below && node_ok(
            before,
            ids[j] as int,
            h,
        ) by {
            assert(level@[from + j] < below);
        }
    }
    nodes.push(CompactNode::Internal { children, subtree_len });
    proof {
        lemma_kids_kept(before, nodes@, ids, below, h);
    }
    id
}

proof fn lemma_kids_sum(
    nodes: Seq<CompactNode>,
    ids: Seq<usize>,
    below: int,
    from: int,
    j: int,
    h: nat,
)
    requires
        ids_ok(nodes, ids, below, h),
        0 <= from <= j < ids.len(),
    ensures
        marks_of(kids_pieces(nodes, ids.subrange(from, j + 1), below)).len() == marks_of(
            kids_pieces(nodes, ids.subrange(from, j), below),
        ).len() + nodes[ids[j] as int].span(),
        marks_of(kids_pieces(nodes, ids.subrange(from, j + 1), below)).len() <= marks_of(
            kids_pieces(nodes, ids, below),
        ).len(),
{
    let a = ids.take(from);
    let b = ids.subrange(from, j + 1);
    let c = ids.skip(j + 1);
    assert(ids =~= a + b + c);
    lemma_kids_add(nodes, a + b, c, below);
    lemma_kids_add(nodes, a, b, below);
    lemma_marks_add(kids_pieces(nodes, a + b, below), kids_pieces(nodes, c, below));
    lemma_marks_add(kids_pieces(nodes, a, below), kids_pieces(nodes, b, below));
    assert(b.drop_last() =~= ids.subrange(from, j));
    assert(b.last() == ids[j]);
    lemma_marks_add(kids_pieces(nodes, b.drop_last(), below), node_pieces(nodes, ids[j] as int));
    lemma_node_sound(nodes, ids[j] as int, h);
}

/// Appends parents for all the nodes of `level`. Gives their places.
fn push_parents(
    nodes: &mut Vec<CompactNode>,
    level: &Vec<CompactNodeId>,
    Ghost(h): Ghost<nat>,
) -> (next: Vec<CompactNodeId>)
    requires
        0 < h,
        ids_ok(old(nodes)@, level@, old(nodes)@.len() as int, h),
        marks_of(kids_pieces(old(nodes)@, level@, old(nodes)@.len() as int)).len() <= usize::MAX,
    ensures
        ids_ok(final(nodes)@, next@, final(nodes)@.len() as int, h + 1),
        kids_pieces(final(nodes)@, next@, final(nodes)@.len() as int) == kids_pieces(
            old(nodes)@,
            level@,
            old(nodes)@.len() as int,
        ),
        next@.len() == groups(level@.len() as int, INTERNAL_MAX_CHILDREN as int),
{
    let ghost start = nodes@;
    let ghost all = kids_pieces(start, level@, start.len() as int);
    let mut next: Vec<CompactNodeId> = Vec::new();
    let mut from: usize = 0;
    assert(level@.take(0) =~= Seq::empty());
    while from < level.len()
        invariant
            0 < h,
            start.len() <= nodes@.len(),
            ids_ok(nodes@, level@, nodes@.len() as int, h),
            kids_pieces(nodes@, level@, nodes@.len() as int) == all,
            marks_of(all).len() <= usize::MAX,
            from <= level@.len(),
            from == level@.len() || from == INTERNAL_MAX_CHILDREN * next@.len(),
            next@.len() == groups(from as int, INTERNAL_MAX_CHILDREN as int),
            ids_ok(nodes@, next@, nodes@.len() as int, h + 1),
            kids_pieces(nodes@, next@, nodes@.len() as int) == kids_pieces(
                nodes@,
                level@.take(from as int),
                nodes@.len() as int,
            ),
        decreases level@.len() - from,
    {
        let left = level.len() - from;
        let to = if left > INTERNAL_MAX_CHILDREN {
            from + INTERNAL_MAX_CHILDREN
        } else {
            level.len()
        };
        let ghost before = nodes@;
        let ghost ids = next@;
        let id = push_parent(nodes, level, from, to, Ghost(h));
        next.push(id);
        proof {
            lemma_ids_push(before, nodes@, ids, id, h + 1);
            lemma_level_kept(before, nodes@, level@, h);
            lemma_level_kept_part(before, nodes@, level@, from as int, to as int, h);
        }
        from = to;
    }
    assert(level@.take(level@.len() as int) =~= level@);
    next
}

proof fn lemma_level_kept(
    nodes: Seq<CompactNode>,
    more: Seq<CompactNode>,
    ids: Seq<usize>,
    h: nat,
)
    requires
        ids_ok(nodes, ids, nodes.len() as int, h),
        nodes.len() <= more.len(),
        forall|i: int| 0 <= i < nodes.len() ==> #[trigger] more[i] == nodes[i],
    ensures
        ids_ok(more, ids, more.len() as int, h),
        kids_pieces(more, ids, more.len() as int) == kids_pieces(nodes, ids, nodes.len() as int),
{
    lemma_kids_kept(nodes, more, ids, nodes.len() as int, h);
    assert forall|j: int| 0 <= j < ids.len() implies #[trigger] ids[j] < nodes.len() && ids[j]
        < more.len() by {}
    lemma_kids_below(more, ids, nodes.len() as int, more.len() as int);
}

proof fn lemma_level_kept_part(
    nodes: Seq<CompactNode>,
    more: Seq<CompactNode>,
    ids: Seq<usize>,
    from: int,
    to: int,
    h: nat,
)
    requires
        ids_ok(nodes, ids, nodes.len() as int, h),
        nodes.len() <= more.len(),
        forall|i: int| 0 <= i < nodes.len() ==> #[trigger] more[i] == nodes[i],
        0 <= from <= to <= ids.len(),
    ensures
        kids_pieces(more, ids.take(to), more.len() as int) == kids_pieces(
            nodes,
            ids.take(from),
            nodes.len() as int,
        ) + kids_pieces(nodes, ids.subrange(from, to), nodes.len() as int),
{
    let front = ids.take(to);
    assert forall|j: int| 0 <= j < front.len() implies #[trigger] front[j] < nodes.len() && node_ok(
        nodes,
        front[j] as int,
        h,
    ) by {
        assert(ids[j] < nodes.len());
    }
    lemma_level_kept(nodes, more, front, h);
    assert(front =~= ids.take(from) + ids.subrange(from, to));
    lemma_kids_add(nodes, ids.take(from), ids.subrange(from, to), nodes.len() as int);
}

/// Builds the index over `pieces`: leaves that are full except perhaps the last, and parents
/// likewise, until there is one node. Gives the place of that node, if there are pieces.
pub(crate) fn build_index(nodes: &mut Vec<CompactNode>, pieces: &Vec<Piece>) -> (root: Option<
    CompactNodeId,
>)
    requires
        old(nodes)@.len() == 0,
        all_sound(pieces@),
        marks_of(pieces@).len() <= usize::MAX,
    ensures
        index_ok(final(nodes)@, root, pieces@),
{
    if pieces.len() == 0 {
        return None;
    }
    let mut level = push_leaves(nodes, pieces);
    let ghost mut h = 1nat;
    while level.len() > 1
        invariant
            0 < h,
            0 < level@.len(),
            marks_of(pieces@).len() <= usize::MAX,
            ids_ok(nodes@, level@, nodes@.len() as int, h),
            kids_pieces(nodes@, level@, nodes@.len() as int) == pieces@,
            h + tiers(level@.len()) == levels_for(pieces@.len()),
            pieces@.len() > 0,
        decreases level@.len(),
    {
        level = push_parents(nodes, &level, Ghost(h));
        proof {
            h = h + 1;
        }
    }
    proof {
        assert(level@[0] < nodes@.len());
        assert(level@.drop_last() =~= Seq::empty());
        reveal_with_fuel(kids_pieces, 2);
        assert(node_pieces(nodes@, level@[0] as int) =~= pieces@);
    }
    Some(level[0])
}

proof fn lemma_tiers_small(n: nat)
    requires
        n > 0,
    ensures
        tiers(n) < n,
    decreases n,
{
    if n > 1 {
        lemma_tiers_small(groups(n as int, INTERNAL_MAX_CHILDREN as int) as nat);
    }
}

/// An index has no more levels than pieces.
pub(crate) proof fn lemma_levels_small(n: nat)
    ensures
        levels_for(n) <= n,
{
    if n > 0 {
        lemma_tiers_small(groups(n as int, LEAF_MAX_PIECES as int) as nat);
    }
}

/// The number of levels of the index, counted along the first children.
pub(crate) fn index_height(nodes: &Vec<CompactNode>, root: CompactNodeId, Ghost(h): Ghost<nat>) -> (n:
    usize)
    requires
        node_ok(nodes@, root as int, h),
        h <= usize::MAX,
    ensures
        n == h,
{
    let mut count: usize = 0;
    let mut cur = root;
    let ghost mut k = h;
    loop
        invariant
            node_ok(nodes@, cur as int, k),
            count + k == h,
            h <= usize::MAX,
        decreases k,
    {
        count += 1;
        match &nodes[cur] {
            CompactNode::Leaf { .. } => {
                return count;
            },
            CompactNode::Internal { children, .. } => {
                assert(children@[0] < cur);
                cur = children[0];
                proof {
                    k = (k - 1) as nat;
                }
            },
        }
    }
}

} // verus!
