//! Keeping the nodes of the tree neither too full nor too empty.
use vstd::prelude::*;

use crate::list::{can_coalesce, lemma_heads_fused};
use crate::piece::{
    all_sound, continues, fused, heads, lemma_fused_add, lemma_fused_trans, lemma_heads_add,
    lemma_heads_of, lemma_marks_add, lemma_marks_one, lemma_marks_split, loose, marks_of, tidy,
    Piece,
};
use crate::stats::{lemma_tallied_none, lemma_tallied_trans, tallied, Stats};
use crate::tree::{
    kids_wf, lemma_all_add, lemma_all_at, lemma_all_one, lemma_all_pair, lemma_all_replace,
    lemma_all_split, marks_all, only_made, only_merged, size_all, BNode, NodePool,
    INTERNAL_MAX_CHILDREN, INTERNAL_MIN_CHILDREN, LEAF_MAX_PIECES, LEAF_MIN_PIECES,
};

verus! {

/// The least number of pieces or children that a node is to have.
pub open spec fn min_fill(n: BNode) -> nat {
    match n {
        BNode::Leaf { .. } => LEAF_MIN_PIECES as nat,
        BNode::Internal { .. } => INTERNAL_MIN_CHILDREN as nat,
    }
}

/// The greatest number of pieces or children that a node is to have.
pub open spec fn max_fill(n: BNode) -> nat {
    match n {
        BNode::Leaf { .. } => LEAF_MAX_PIECES as nat,
        BNode::Internal { .. } => INTERNAL_MAX_CHILDREN as nat,
    }
}

/// No node at or below this one has more pieces or children than it is to have.
pub open spec fn fits(n: BNode) -> bool
    decreases n,
{
    &&& n.fill() <= max_fill(n)
    &&& match n {
        BNode::Leaf { .. } => true,
        BNode::Internal { children, .. } => all_fit(children@),
    }
}

/// No node at or below these has more pieces or children than it is to have.
#[verifier::opaque]
pub open spec fn all_fit(s: Seq<Box<BNode>>) -> bool
    decreases s,
{
    forall|k: int| 0 <= k < s.len() ==> fits(*#[trigger] s[k])
}

/// No node below this one has more pieces or children than it is to have.
pub open spec fn fits_below(n: BNode) -> bool {
    match n {
        BNode::Leaf { .. } => true,
        BNode::Internal { children, .. } => all_fit(children@),
    }
}

/// Every leaf at or below this one can take `k` more pieces.
pub open spec fn roomy(n: BNode, k: int) -> bool
    decreases n,
{
    match n {
        BNode::Leaf { pieces, .. } => pieces@.len() + k <= LEAF_MAX_PIECES,
        BNode::Internal { children, .. } => all_roomy(children@, k),
    }
}

/// Every leaf at or below these can take `k` more pieces.
#[verifier::opaque]
pub open spec fn all_roomy(s: Seq<Box<BNode>>, k: int) -> bool
    decreases s,
{
    forall|i: int| 0 <= i < s.len() ==> roomy(*#[trigger] s[i], k)
}

/// Every node at or below this one that is no leaf can take one more child.
pub open spec fn spare(n: BNode) -> bool
    decreases n,
{
    match n {
        BNode::Leaf { .. } => true,
        BNode::Internal { children, .. } => children@.len() < INTERNAL_MAX_CHILDREN && all_spare(
            children@,
        ),
    }
}

/// Every node at or below these that is no leaf can take one more child.
#[verifier::opaque]
pub open spec fn all_spare(s: Seq<Box<BNode>>) -> bool
    decreases s,
{
    forall|i: int| 0 <= i < s.len() ==> spare(*#[trigger] s[i])
}

/// Every leaf at or below this one has a piece.
pub open spec fn filled(n: BNode) -> bool
    decreases n,
{
    match n {
        BNode::Leaf { pieces, .. } => pieces@.len() > 0,
        BNode::Internal { children, .. } => all_filled(children@),
    }
}

/// Every leaf at or below these has a piece.
#[verifier::opaque]
pub open spec fn all_filled(s: Seq<Box<BNode>>) -> bool
    decreases s,
{
    forall|k: int| 0 <= k < s.len() ==> filled(*#[trigger] s[k])
}

pub(crate) proof fn lemma_filled(n: BNode)
    ensures
        filled(n) <==> match n {
            BNode::Leaf { pieces, .. } => pieces@.len() > 0,
            BNode::Internal { children, .. } => all_filled(children@),
        },
{
    reveal(all_filled);
}

/// The halves of a node that was too full.
pub(crate) proof fn lemma_filled_halved(n: BNode, l: BNode, r: BNode)
    requires
        halved(n, l, r),
        filled(n),
        n.fill() > max_fill(n),
    ensures
        filled(l),
        filled(r),
{
    reveal(all_filled);
    lemma_filled(n);
    lemma_filled(l);
    lemma_filled(r);
}

/// Every node at or below this one has at least as many pieces or children as it is to have.
pub open spec fn half_full(n: BNode) -> bool
    decreases n,
{
    &&& n.fill() >= min_fill(n)
    &&& match n {
        BNode::Leaf { .. } => true,
        BNode::Internal { children, .. } => all_half_full(children@),
    }
}

/// Every node at or below these has at least as many pieces or children as it is to have.
#[verifier::opaque]
pub open spec fn all_half_full(s: Seq<Box<BNode>>) -> bool
    decreases s,
{
    forall|k: int| 0 <= k < s.len() ==> half_full(*#[trigger] s[k])
}

/// Every node below this one has at least as many pieces or children as it is to have.
pub open spec fn half_full_below(n: BNode) -> bool {
    match n {
        BNode::Leaf { .. } => true,
        BNode::Internal { children, .. } => all_half_full(children@),
    }
}

pub(crate) proof fn lemma_half_full(n: BNode)
    ensures
        half_full(n) <==> half_full_below(n) && n.fill() >= min_fill(n),
{
    reveal(all_half_full);
}

/// The halves of a node that was too full.
pub(crate) proof fn lemma_half_full_halved(n: BNode, l: BNode, r: BNode)
    requires
        halved(n, l, r),
        half_full_below(n),
        n.fill() > max_fill(n),
    ensures
        half_full(l),
        half_full(r),
{
    reveal(all_half_full);
    lemma_half_full(l);
    lemma_half_full(r);
}

/// No node below these has more than it is to have, and none of these has more than twice as
/// much.
#[verifier::opaque]
pub open spec fn all_half_fit(s: Seq<Box<BNode>>) -> bool {
    forall|k: int|
        0 <= k < s.len() ==> fits_below(*#[trigger] s[k]) && s[k].fill() <= 2 * max_fill(*s[k])
}

/// Every node is empty, or lacks at most one of the entries that it is to have at least.
#[verifier::opaque]
pub open spec fn nearly_fed(s: Seq<Box<BNode>>) -> bool {
    forall|k: int|
        0 <= k < s.len() ==> (#[trigger] s[k]).fill() == 0 || s[k].fill() + 1 >= min_fill(*s[k])
}

pub(crate) proof fn lemma_fits(n: BNode)
    ensures
        fits(n) <==> fits_below(n) && n.fill() <= max_fill(n),
{
    reveal(all_fit);
}

/// What room there is below a node is what room there is below its children.
pub(crate) proof fn lemma_room(n: BNode, k: int)
    ensures
        match n {
            BNode::Leaf { pieces, .. } => {
                &&& roomy(n, k) <==> pieces@.len() + k <= LEAF_MAX_PIECES
                &&& spare(n)
                &&& n.size() == 1
            },
            BNode::Internal { children, .. } => {
                &&& roomy(n, k) <==> all_roomy(children@, k)
                &&& spare(n) <==> children@.len() < INTERNAL_MAX_CHILDREN && all_spare(children@)
                &&& n.size() == 1 + size_all(children@)
            },
        },
{
    reveal(all_roomy);
    reveal(all_spare);
}

/// The last entry of `l` became the first of `r`.
pub open spec fn last_moved(l: BNode, r: BNode, l_after: BNode, r_after: BNode) -> bool {
    match (l, r, l_after, r_after) {
        (
            BNode::Leaf { pieces: a, .. },
            BNode::Leaf { pieces: b, .. },
            BNode::Leaf { pieces: c, .. },
            BNode::Leaf { pieces: d, .. },
        ) => c@ == a@.drop_last() && d@ == seq![a@.last()] + b@,
        (
            BNode::Internal { children: a, .. },
            BNode::Internal { children: b, .. },
            BNode::Internal { children: c, .. },
            BNode::Internal { children: d, .. },
        ) => c@ == a@.drop_last() && d@ == seq![a@.last()] + b@,
        _ => false,
    }
}

/// The first entry of `r` became the last of `l`.
pub open spec fn first_moved(l: BNode, r: BNode, l_after: BNode, r_after: BNode) -> bool {
    match (l, r, l_after, r_after) {
        (
            BNode::Leaf { pieces: a, .. },
            BNode::Leaf { pieces: b, .. },
            BNode::Leaf { pieces: c, .. },
            BNode::Leaf { pieces: d, .. },
        ) => c@ == a@.push(b@[0]) && d@ == b@.skip(1),
        (
            BNode::Internal { children: a, .. },
            BNode::Internal { children: b, .. },
            BNode::Internal { children: c, .. },
            BNode::Internal { children: d, .. },
        ) => c@ == a@.push(b@[0]) && d@ == b@.skip(1),
        _ => false,
    }
}

/// `n` has the entries of `l`, followed by those of `r`.
pub open spec fn appended(l: BNode, r: BNode, n: BNode) -> bool {
    match (l, r, n) {
        (
            BNode::Leaf { pieces: a, .. },
            BNode::Leaf { pieces: b, .. },
            BNode::Leaf { pieces: c, .. },
        ) => c@ == a@ + b@,
        (
            BNode::Internal { children: a, .. },
            BNode::Internal { children: b, .. },
            BNode::Internal { children: c, .. },
        ) => c@ == a@ + b@,
        _ => false,
    }
}

/// `l` has the first half of the entries of `n`, and `r` the others.
pub open spec fn halved(n: BNode, l: BNode, r: BNode) -> bool {
    match (n, l, r) {
        (
            BNode::Leaf { pieces: a, .. },
            BNode::Leaf { pieces: b, .. },
            BNode::Leaf { pieces: c, .. },
        ) => b@ == a@.take(a@.len() as int / 2) && c@ == a@.skip(a@.len() as int / 2),
        (
            BNode::Internal { children: a, .. },
            BNode::Internal { children: b, .. },
            BNode::Internal { children: c, .. },
        ) => b@ == a@.take(a@.len() as int / 2) && c@ == a@.skip(a@.len() as int / 2),
        _ => false,
    }
}

proof fn lemma_fits_moved(l: BNode, r: BNode, l_after: BNode, r_after: BNode)
    requires
        l.fill() > 0 && last_moved(l, r, l_after, r_after) || r.fill() > 0 && first_moved(
            l,
            r,
            l_after,
            r_after,
        ),
        fits_below(l),
        fits_below(r),
    ensures
        fits_below(l_after),
        fits_below(r_after),
{
    reveal(all_fit);
}

proof fn lemma_fits_appended(l: BNode, r: BNode, n: BNode)
    requires
        appended(l, r, n),
        fits_below(l),
        fits_below(r),
    ensures
        fits_below(n),
{
    reveal(all_fit);
}

pub(crate) proof fn lemma_fits_halved(n: BNode, l: BNode, r: BNode)
    requires
        halved(n, l, r),
        fits_below(n),
    ensures
        fits_below(l),
        fits_below(r),
{
    reveal(all_fit);
}

/// A node that is not empty and has less than it is to have.
pub open spec fn underfull(n: BNode) -> bool {
    0 < n.fill() < min_fill(n)
}

/// How much an underfull node lacks.
pub open spec fn deficit(n: BNode) -> nat {
    if underfull(n) {
        (min_fill(n) - n.fill()) as nat
    } else {
        0
    }
}

pub open spec fn deficit_all(s: Seq<Box<BNode>>) -> nat
    decreases s.len(),
{
    if s.len() == 0 {
        0
    } else {
        deficit_all(s.drop_last()) + deficit(*s.last())
    }
}

proof fn lemma_deficit_add(a: Seq<Box<BNode>>, b: Seq<Box<BNode>>)
    ensures
        deficit_all(a + b) == deficit_all(a) + deficit_all(b),
    decreases b.len(),
{
    if b.len() == 0 {
        assert(a + b =~= a);
    } else {
        lemma_deficit_add(a, b.drop_last());
        assert((a + b).drop_last() =~= a + b.drop_last());
        assert((a + b).last() == b.last());
    }
}

proof fn lemma_deficit_pair(s: Seq<Box<BNode>>, i: int)
    requires
        0 <= i < s.len() - 1,
    ensures
        deficit_all(s) == deficit_all(s.take(i)) + deficit(*s[i]) + deficit(*s[i + 1])
            + deficit_all(s.skip(i + 2)),
{
    assert(s =~= s.take(i) + seq![s[i], s[i + 1]] + s.skip(i + 2));
    lemma_deficit_add(s.take(i) + seq![s[i], s[i + 1]], s.skip(i + 2));
    lemma_deficit_add(s.take(i), seq![s[i], s[i + 1]]);
    reveal_with_fuel(deficit_all, 3);
    assert(seq![s[i], s[i + 1]].drop_last() =~= seq![s[i]]);
    assert(seq![s[i]].drop_last() =~= Seq::empty());
}

/// Two neighbours replaced by two nodes that hold the same document.
proof fn lemma_pair_replaced(s: Seq<Box<BNode>>, t: Seq<Box<BNode>>, i: int, h: nat)
    requires
        0 <= i < s.len() - 1,
        t.len() == s.len(),
        forall|k: int| 0 <= k < s.len() && k != i && k != i + 1 ==> #[trigger] t[k] == s[k],
        kids_wf(s, h),
        t[i].wf(h),
        t[i + 1].wf(h),
    ensures
        kids_wf(t, h),
        t.take(i) == s.take(i),
        t.skip(i + 2) == s.skip(i + 2),
        s[i].marks() + s[i + 1].marks() == t[i].marks() + t[i + 1].marks() ==> marks_all(t)
            == marks_all(s),
        s[i].size() + s[i + 1].size() == t[i].size() + t[i + 1].size() ==> size_all(t) == size_all(
            s,
        ),
        deficit_all(t) - deficit_all(s) == deficit(*t[i]) + deficit(*t[i + 1]) - deficit(*s[i])
            - deficit(*s[i + 1]),
{
    assert forall|k: int| 0 <= k < t.len() implies (#[trigger] t[k]).wf(h) by {
        if k != i && k != i + 1 {
            assert(s[k].wf(h));
        }
    }
    assert(t.take(i) =~= s.take(i));
    assert(t.skip(i + 2) =~= s.skip(i + 2));
    lemma_all_pair(s, i);
    lemma_all_pair(t, i);
    lemma_deficit_pair(s, i);
    lemma_deficit_pair(t, i);
}

pub(crate) fn is_underfull(node: &BNode) -> (b: bool)
    ensures
        b == underfull(*node),
{
    match node {
        BNode::Leaf { pieces, .. } => pieces.len() > 0 && pieces.len() < LEAF_MIN_PIECES,
        BNode::Internal { children, .. } => {
            children.len() > 0 && children.len() < INTERNAL_MIN_CHILDREN
        },
    }
}

/// Whether the node has more than it is to have at least.
pub(crate) fn can_lend(node: &BNode) -> (b: bool)
    ensures
        b == (node.fill() > min_fill(*node)),
{
    match node {
        BNode::Leaf { pieces, .. } => pieces.len() > LEAF_MIN_PIECES,
        BNode::Internal { children, .. } => children.len() > INTERNAL_MIN_CHILDREN,
    }
}

/// Whether the nodes are both leaves or both internal.
pub(crate) fn same_kind(left: &BNode, right: &BNode) -> (b: bool)
    ensures
        b == (left is Leaf == right is Leaf),
{
    match (left, right) {
        (BNode::Leaf { .. }, BNode::Leaf { .. }) => true,
        (BNode::Internal { .. }, BNode::Internal { .. }) => true,
        _ => false,
    }
}

/// The last piece of a leaf.
fn last_piece(node: &BNode) -> (r: Option<Piece>)
    ensures
        r == (match *node {
            BNode::Leaf { pieces, .. } => if pieces@.len() > 0 {
                Some(pieces@.last())
            } else {
                None
            },
            BNode::Internal { .. } => None,
        }),
{
    match node {
        BNode::Leaf { pieces, .. } => {
            if pieces.len() > 0 {
                Some(pieces[pieces.len() - 1])
            } else {
                None
            }
        },
        BNode::Internal { .. } => None,
    }
}

/// The first piece of a leaf.
fn first_piece(node: &BNode) -> (r: Option<Piece>)
    ensures
        r == (match *node {
            BNode::Leaf { pieces, .. } => if pieces@.len() > 0 {
                Some(pieces@[0])
            } else {
                None
            },
            BNode::Internal { .. } => None,
        }),
{
    match node {
        BNode::Leaf { pieces, .. } => {
            if pieces.len() > 0 {
                Some(pieces[0])
            } else {
                None
            }
        },
        BNode::Internal { .. } => None,
    }
}

/// The first piece of `b` continues the last piece of `a`.
pub open spec fn seam_open(a: BNode, b: BNode) -> bool {
    match (a, b) {
        (BNode::Leaf { pieces: l, .. }, BNode::Leaf { pieces: r, .. }) => {
            l@.len() > 0 && r@.len() > 0 && continues(l@.last(), r@[0])
        },
        _ => false,
    }
}

/// The first piece of node `k + 1` continues the last piece of node `k`.
pub open spec fn seam_at(s: Seq<Box<BNode>>, k: int) -> bool {
    seam_open(*s[k], *s[k + 1])
}

/// The node is no leaf in which two neighbouring pieces could be one.
pub open spec fn tidy_node(n: BNode) -> bool {
    match n {
        BNode::Leaf { pieces, .. } => tidy(pieces@),
        BNode::Internal { .. } => true,
    }
}

/// The first pieces of the nodes begin at the same index of the same buffer.
pub open spec fn begin_alike(a: BNode, b: BNode) -> bool {
    match (a, b) {
        (BNode::Leaf { pieces: p, .. }, BNode::Leaf { pieces: q, .. }) => {
            &&& p@.len() > 0
            &&& q@.len() > 0
            &&& p@[0].buffer == q@[0].buffer
            &&& p@[0].start == q@[0].start
        },
        _ => false,
    }
}

/// Node `i + 1` may have lost an entry, and node `i` none; the others are the same.
#[verifier::opaque]
pub open spec fn seam_step(s: Seq<Box<BNode>>, t: Seq<Box<BNode>>, i: int) -> bool {
    &&& s.len() == t.len()
    &&& forall|k: int| 0 <= k < s.len() && k != i && k != i + 1 ==> #[trigger] t[k] == s[k]
    &&& (*s[i]) is Leaf == (*t[i]) is Leaf
    &&& (*s[i + 1]) is Leaf == (*t[i + 1]) is Leaf
    &&& t[i].fill() == s[i].fill()
    &&& t[i + 1].fill() <= s[i + 1].fill() <= t[i + 1].fill() + 1
}

/// Each node is of the same kind as before and has lost at most one entry, and those after the
/// first `n` are the same.
#[verifier::opaque]
pub open spec fn thinned(s: Seq<Box<BNode>>, t: Seq<Box<BNode>>, n: int) -> bool {
    &&& s.len() == t.len()
    &&& forall|k: int|
        0 <= k < s.len() ==> {
            &&& (*#[trigger] t[k]) is Leaf == (*s[k]) is Leaf
            &&& t[k].fill() <= s[k].fill() <= t[k].fill() + 1
            &&& k >= n ==> t[k] == s[k]
        }
}

proof fn lemma_thinned_step(s: Seq<Box<BNode>>, t: Seq<Box<BNode>>, u: Seq<Box<BNode>>, i: int)
    requires
        0 <= i < s.len() - 1,
        thinned(s, t, i + 1),
        seam_step(t, u, i),
    ensures
        thinned(s, u, i + 2),
{
    reveal(thinned);
    reveal(seam_step);
    assert(t[i + 1] == s[i + 1]);
    assert forall|k: int| 0 <= k < s.len() implies {
        &&& (*#[trigger] u[k]) is Leaf == (*s[k]) is Leaf
        &&& u[k].fill() <= s[k].fill() <= u[k].fill() + 1
        &&& k >= i + 2 ==> u[k] == s[k]
    } by {
        assert(t[k].fill() <= s[k].fill());
    }
}

/// Moves the first piece of the leaf `right` into the last piece of the leaf `left`, which it
/// continues.
fn join_leaves(left: &mut BNode, right: &mut BNode)
    requires
        old(left).wf(1),
        old(right).wf(1),
        old(left).marks().len() + old(right).marks().len() <= usize::MAX,
        match (*old(left), *old(right)) {
            (BNode::Leaf { pieces: l, .. }, BNode::Leaf { pieces: r, .. }) => {
                &&& l@.len() > 0
                &&& r@.len() > 0
                &&& continues(l@.last(), r@[0])
            },
            _ => false,
        },
    ensures
        final(left).wf(1),
        final(right).wf(1),
        fused(
            old(left).marks() + old(right).marks(),
            final(left).marks() + final(right).marks(),
        ),
        final(left).size() == old(left).size(),
        final(right).size() == old(right).size(),
        heads(final(left).marks()) + heads(final(right).marks()) + 1 == heads(old(left).marks())
            + heads(old(right).marks()),
        final(left).fill() == old(left).fill(),
        final(right).fill() == old(right).fill() - 1,
        (*final(left)) is Leaf && (*final(right)) is Leaf,
        begin_alike(*old(left), *final(left)),
        tidy_node(*old(left)) ==> tidy_node(*final(left)),
        tidy_node(*old(right)) ==> tidy_node(*final(right)) && !seam_open(
            *final(left),
            *final(right),
        ),
{
    match left {
        BNode::Leaf { pieces: lp, .. } => {
            match right {
                BNode::Leaf { pieces: rp, .. } => {
                    let ghost l = lp@;
                    let ghost r = rp@;
                    let n = lp.len();
                    let right_first = rp.remove(0);
                    lp[n - 1].end = right_first.end;
                    proof {
                        let was = l.last();
                        let now = lp@.last();
                        assert(was.sound() && r[0].sound());
                        assert(lp@.drop_last() =~= l.drop_last());
                        assert(r =~= seq![right_first] + rp@);
                        lemma_marks_add(seq![right_first], rp@);
                        lemma_marks_one(right_first);
                        let a = marks_of(l.drop_last());
                        let c = marks_of(rp@);
                        let b = was.marks() + right_first.marks();
                        assert(fused(b, now.marks()));
                        lemma_fused_add(a, a, b, now.marks());
                        lemma_fused_add(a + b, a + now.marks(), c, c);
                        assert(marks_of(l) + marks_of(r) =~= a + b + c);
                        assert(marks_of(lp@) + marks_of(rp@) =~= a + now.marks() + c);
                        assert forall|k: int| 0 <= k < rp@.len() implies (
                        #[trigger] rp@[k]).sound() by {
                            assert(r[k + 1].sound());
                        }
                        assert forall|k: int| 0 <= k < lp@.len() implies (
                        #[trigger] lp@[k]).sound() by {
                            assert(l[k].sound());
                        }
                        lemma_heads_of(l);
                        lemma_heads_of(r);
                        lemma_heads_of(lp@);
                        lemma_heads_of(rp@);
                        if tidy(l) {
                            assert forall|k: int| 0 <= k < lp@.len() - 1 implies !#[trigger] loose(
                                lp@,
                                k,
                            ) by {
                                assert(!loose(l, k));
                            }
                        }
                        if tidy(r) {
                            assert forall|k: int| 0 <= k < rp@.len() - 1 implies !#[trigger] loose(
                                rp@,
                                k,
                            ) by {
                                assert(!loose(r, k + 1));
                            }
                            if rp@.len() > 0 {
                                assert(!loose(r, 0));
                            }
                        }
                    }
                },
                BNode::Internal { .. } => {},
            }
        },
        BNode::Internal { .. } => {},
    }
    left.update_len(Ghost(1));
    right.update_len(Ghost(1));
}

/// No node is a leaf in which two neighbouring pieces could be one, and none of the first `n`
/// nodes ends with a piece that the next node continues.
#[verifier::opaque]
pub open spec fn closed_to(s: Seq<Box<BNode>>, n: int) -> bool {
    &&& forall|k: int| 0 <= k < s.len() ==> tidy_node(*#[trigger] s[k])
    &&& forall|k: int| 0 <= k < n && k < s.len() - 1 ==> !#[trigger] seam_at(s, k)
}

/// Merges the last piece of a leaf with the first piece of the leaf after it, where it continues
/// it.
pub(crate) fn normalize_adjacent_leaves(
    children: &mut Vec<Box<BNode>>,
    stats: &mut Stats,
    Ghost(h): Ghost<nat>,
)
    requires
        kids_wf(old(children)@, h),
        marks_all(old(children)@).len() <= usize::MAX,
    ensures
        kids_wf(final(children)@, h),
        final(children)@.len() == old(children)@.len(),
        fused(marks_all(old(children)@), marks_all(final(children)@)),
        size_all(final(children)@) == size_all(old(children)@),
        ({
            let joins = heads(marks_all(old(children)@)) - heads(marks_all(final(children)@));
            tallied(*old(stats), *final(stats), 0, joins, joins)
        }),
        thinned(old(children)@, final(children)@, final(children)@.len() as int),
        h > 1 || old(children)@.len() < 2 ==> final(children)@ == old(children)@,
        heads(marks_all(final(children)@)) == heads(marks_all(old(children)@)) ==> final(children)@
            == old(children)@,
        closed_to(old(children)@, 0) ==> closed_to(
            final(children)@,
            final(children)@.len() as int,
        ),
{
    let ghost s = children@;
    let ghost counts = *stats;
    proof {
        lemma_tallied_none(counts);
        assert(thinned(s, s, 1)) by {
            reveal(thinned);
        }
    }
    if children.len() < 2 {
        proof {
            reveal(closed_to);
            reveal(thinned);
        }
        return ;
    }
    let last = children.len() - 1;
    for i in 0..last
        invariant
            last + 1 == children@.len(),
            children@.len() == s.len(),
            kids_wf(children@, h),
            marks_all(s).len() <= usize::MAX,
            fused(marks_all(s), marks_all(children@)),
            size_all(children@) == size_all(s),
            ({
                let joins = heads(marks_all(s)) - heads(marks_all(children@));
                tallied(counts, *stats, 0, joins, joins)
            }),
            thinned(s, children@, i + 1),
            h > 1 ==> children@ == s,
            heads(marks_all(children@)) <= heads(marks_all(s)),
            heads(marks_all(children@)) == heads(marks_all(s)) ==> children@ == s,
            closed_to(s, 0) ==> closed_to(children@, i as int),
    {
        let ghost t = children@;
        let ghost seen = *stats;
        close_seam(children, i, stats, Ghost(h));
        proof {
            let u = children@;
            let joins = heads(marks_all(s)) - heads(marks_all(t));
            let more = heads(marks_all(t)) - heads(marks_all(u));
            lemma_fused_trans(marks_all(s), marks_all(t), marks_all(u));
            lemma_heads_fused(marks_all(t), marks_all(u));
            lemma_tallied_trans(counts, seen, *stats, 0, joins, joins, 0, more, more);
            lemma_thinned_step(s, t, u, i as int);
        }
    }
    proof {
        reveal(closed_to);
    }
}

/// Merges the first piece of the leaf `i + 1` into the last piece of the leaf `i`, which it
/// continues.
fn join_pair(children: &mut Vec<Box<BNode>>, i: usize)
    requires
        kids_wf(old(children)@, 1),
        i < old(children)@.len() - 1,
        marks_all(old(children)@).len() <= usize::MAX,
        match (*old(children)@[i as int], *old(children)@[i + 1]) {
            (BNode::Leaf { pieces: l, .. }, BNode::Leaf { pieces: r, .. }) => {
                &&& l@.len() > 0
                &&& r@.len() > 0
                &&& continues(l@.last(), r@[0])
            },
            _ => false,
        },
    ensures
        kids_wf(final(children)@, 1),
        final(children)@.len() == old(children)@.len(),
        fused(marks_all(old(children)@), marks_all(final(children)@)),
        size_all(final(children)@) == size_all(old(children)@),
        heads(marks_all(old(children)@)) - heads(marks_all(final(children)@)) == 1,
        seam_step(old(children)@, final(children)@, i as int),
        closed_to(old(children)@, i as int) ==> closed_to(final(children)@, i + 1),
{
    let ghost t = children@;
    let ghost k = i as int;
    proof {
        assert(t[k].wf(1) && t[k + 1].wf(1));
        lemma_all_pair(t, k);
    }
    assert(children.len() == t.len());
    let (left, right) = children.split_at_mut(i + 1);
    join_leaves(&mut left[i], &mut right[0]);
    proof {
        assert(children@.len() == t.len());
        lemma_seam_merged(t, children@, k, 1);
        lemma_seam_closed(t, children@, k);
    }
}

/// Merges the first piece of node `i + 1` into the last piece of node `i`, if they are leaves and
/// it continues it.
fn close_seam(children: &mut Vec<Box<BNode>>, i: usize, stats: &mut Stats, Ghost(h): Ghost<nat>)
    requires
        kids_wf(old(children)@, h),
        i < old(children)@.len() - 1,
        marks_all(old(children)@).len() <= usize::MAX,
    ensures
        kids_wf(final(children)@, h),
        final(children)@.len() == old(children)@.len(),
        fused(marks_all(old(children)@), marks_all(final(children)@)),
        size_all(final(children)@) == size_all(old(children)@),
        ({
            let joins = heads(marks_all(old(children)@)) - heads(marks_all(final(children)@));
            tallied(*old(stats), *final(stats), 0, joins, joins)
        }),
        seam_step(old(children)@, final(children)@, i as int),
        h > 1 ==> final(children)@ == old(children)@,
        heads(marks_all(final(children)@)) == heads(marks_all(old(children)@)) ==> final(children)@
            == old(children)@,
        closed_to(old(children)@, i as int) ==> closed_to(final(children)@, i + 1),
{
    let ghost t = children@;
    let ghost k = i as int;
    proof {
        lemma_tallied_none(*stats);
        assert(seam_step(t, t, k)) by {
            reveal(seam_step);
        }
        assert(t[k].wf(h) && t[k + 1].wf(h));
        lemma_all_pair(t, k);
    }
    assert(children.len() == t.len());
    let joint = match (last_piece(&children[i]), first_piece(&children[i + 1])) {
        (Some(l), Some(r)) => can_coalesce(&l, &r),
        _ => false,
    };
    if joint {
        assert(h == 1);
        join_pair(children, i);
        stats.note_join();
    } else {
        proof {
            reveal(closed_to);
            assert(!seam_at(t, k));
        }
    }
}

/// Two neighbours between which a piece was merged into the one before it.
proof fn lemma_seam_merged(t: Seq<Box<BNode>>, u: Seq<Box<BNode>>, k: int, h: nat)
    requires
        0 <= k < t.len() - 1,
        u.len() == t.len(),
        forall|j: int| 0 <= j < t.len() && j != k && j != k + 1 ==> #[trigger] u[j] == t[j],
        kids_wf(t, h),
        u[k].wf(h),
        u[k + 1].wf(h),
        fused(t[k].marks() + t[k + 1].marks(), u[k].marks() + u[k + 1].marks()),
        u[k].size() == t[k].size(),
        u[k + 1].size() == t[k + 1].size(),
        heads(u[k].marks()) + heads(u[k + 1].marks()) + 1 == heads(t[k].marks()) + heads(
            t[k + 1].marks(),
        ),
    ensures
        kids_wf(u, h),
        fused(marks_all(t), marks_all(u)),
        size_all(u) == size_all(t),
        heads(marks_all(t)) - heads(marks_all(u)) == 1,
{
    lemma_pair_replaced(t, u, k, h);
    lemma_all_pair(t, k);
    lemma_all_pair(u, k);
    let a = marks_all(t.take(k));
    let b = t[k].marks() + t[k + 1].marks();
    let d = u[k].marks() + u[k + 1].marks();
    let c = marks_all(t.skip(k + 2));
    lemma_fused_add(a, a, b, d);
    lemma_fused_add(a + b, a + d, c, c);
    lemma_heads_add(a + b, c);
    lemma_heads_add(a, b);
    lemma_heads_add(a + d, c);
    lemma_heads_add(a, d);
    lemma_heads_add(t[k].marks(), t[k + 1].marks());
    lemma_heads_add(u[k].marks(), u[k + 1].marks());
}

/// Closing the seam after node `k` opens none before it.
proof fn lemma_seam_closed(t: Seq<Box<BNode>>, u: Seq<Box<BNode>>, k: int)
    requires
        0 <= k < t.len() - 1,
        u.len() == t.len(),
        forall|j: int| 0 <= j < t.len() && j != k && j != k + 1 ==> #[trigger] u[j] == t[j],
        begin_alike(*t[k], *u[k]),
        (*t[k + 1]) is Leaf && (*u[k + 1]) is Leaf,
        u[k].fill() == t[k].fill(),
        u[k + 1].fill() == t[k + 1].fill() - 1,
        tidy_node(*t[k]) ==> tidy_node(*u[k]),
        tidy_node(*t[k + 1]) ==> tidy_node(*u[k + 1]) && !seam_open(*u[k], *u[k + 1]),
    ensures
        seam_step(t, u, k),
        closed_to(t, k) ==> closed_to(u, k + 1),
{
    reveal(seam_step);
    reveal(closed_to);
    if closed_to(t, k) {
        assert(tidy_node(*t[k]) && tidy_node(*t[k + 1]));
        assert forall|j: int| 0 <= j < u.len() implies tidy_node(*#[trigger] u[j]) by {
            if j != k && j != k + 1 {
                assert(tidy_node(*t[j]));
            }
        }
        assert forall|j: int| 0 <= j < k + 1 && j < u.len() - 1 implies !#[trigger] seam_at(
            u,
            j,
        ) by {
            if j < k {
                assert(!seam_at(t, j));
            }
        }
    }
}

/// Splits a node into two, of which it becomes the first.
pub(crate) fn split_half(node: &mut BNode, pool: &mut NodePool, Ghost(h): Ghost<nat>) -> (r: Box<
    BNode,
>)
    requires
        old(node).fill() >= 2,
        match *old(node) {
            BNode::Leaf { pieces, .. } => h == 1 && all_sound(pieces@),
            BNode::Internal { children, .. } => h > 1 && kids_wf(children@, (h - 1) as nat),
        },
        old(node).marks().len() <= usize::MAX,
        old(pool).hollow(),
    ensures
        final(node).wf(h),
        r.wf(h),
        final(node).marks() + r.marks() == old(node).marks(),
        final(node).size() + r.size() == old(node).size() + 1,
        final(node).fill() == old(node).fill() / 2,
        r.fill() == old(node).fill() - old(node).fill() / 2,
        max_fill(*final(node)) == max_fill(*old(node)),
        max_fill(*r) == max_fill(*old(node)),
        halved(*old(node), *final(node), *r),
        only_made(*old(pool), *final(pool), 1),
        final(pool).hollow(),
{
    let r = match node {
        BNode::Leaf { pieces, .. } => {
            let ghost all = pieces@;
            let mid = pieces.len() / 2;
            let right_pieces = pieces.split_off(mid);
            proof {
                assert(pieces@ =~= all.take(mid as int));
                assert(right_pieces@ =~= all.skip(mid as int));
                lemma_marks_split(all, mid as int);
            }
            let right_len = crate::list::pieces_len(&right_pieces);
            pool.alloc_node(BNode::Leaf { pieces: right_pieces, subtree_len: right_len })
        },
        BNode::Internal { children, .. } => {
            let ghost all = children@;
            let mid = children.len() / 2;
            let right_children = children.split_off(mid);
            proof {
                assert(children@ =~= all.take(mid as int));
                assert(right_children@ =~= all.skip(mid as int));
                lemma_all_split(all, mid as int);
            }
            let right_len = crate::tree::children_len(&right_children, Ghost((h - 1) as nat));
            pool.alloc_node(BNode::Internal { children: right_children, subtree_len: right_len })
        },
    };
    node.update_len(Ghost(h));
    r
}

/// Whether the node has more than it is to have at most.
pub(crate) fn is_overfull(node: &BNode) -> (b: bool)
    ensures
        b == (node.fill() > max_fill(*node)),
{
    match node {
        BNode::Leaf { pieces, .. } => pieces.len() > LEAF_MAX_PIECES,
        BNode::Internal { children, .. } => children.len() > INTERNAL_MAX_CHILDREN,
    }
}

/// How many of the nodes are too full.
pub open spec fn overfull_in(s: Seq<Box<BNode>>) -> nat
    decreases s.len(),
{
    if s.len() == 0 {
        0
    } else {
        overfull_in(s.drop_last()) + (if s.last().fill() > max_fill(*s.last()) {
            1nat
        } else {
            0nat
        })
    }
}

/// No node has more than twice as much as it is to have at most.
#[verifier::opaque]
pub open spec fn none_twice_full(s: Seq<Box<BNode>>) -> bool {
    forall|k: int| 0 <= k < s.len() ==> (#[trigger] s[k]).fill() <= 2 * max_fill(*s[k])
}

/// None of the first `n` nodes is too full.
#[verifier::opaque]
pub open spec fn none_overfull(s: Seq<Box<BNode>>, n: int) -> bool {
    forall|k: int| 0 <= k < n && k < s.len() ==> (#[trigger] s[k]).fill() <= max_fill(*s[k])
}

/// Node `i` of `s` was split into nodes `i` and `i + 1` of `t`.
#[verifier::opaque]
pub open spec fn child_halved(s: Seq<Box<BNode>>, t: Seq<Box<BNode>>, i: int) -> bool {
    &&& 0 <= i < s.len()
    &&& t.len() == s.len() + 1
    &&& forall|k: int| 0 <= k < i ==> #[trigger] t[k] == s[k]
    &&& halved(*s[i], *t[i], *t[i + 1])
    &&& forall|k: int| i + 1 < k < t.len() ==> #[trigger] t[k] == s[k - 1]
}

/// The first `n` nodes, and those below them, have no more than they are to have.
#[verifier::opaque]
pub open spec fn fit_to(s: Seq<Box<BNode>>, n: int) -> bool {
    forall|k: int| 0 <= k < n && k < s.len() ==> fits(*#[trigger] s[k])
}

/// Splits node `i` into two.
fn split_child(
    children: &mut Vec<Box<BNode>>,
    i: usize,
    stats: &mut Stats,
    pool: &mut NodePool,
    Ghost(h): Ghost<nat>,
)
    requires
        kids_wf(old(children)@, h),
        i < old(children)@.len(),
        old(children)@[i as int].fill() >= 2,
        marks_all(old(children)@).len() <= usize::MAX,
        old(pool).hollow(),
    ensures
        kids_wf(final(children)@, h),
        child_halved(old(children)@, final(children)@, i as int),
        marks_all(final(children)@) == marks_all(old(children)@),
        size_all(final(children)@) == size_all(old(children)@) + 1,
        tallied(*old(stats), *final(stats), 1, 0, 0),
        only_made(*old(pool), *final(pool), 1),
        final(pool).hollow(),
{
    let ghost t = children@;
    let ghost k = i as int;
    proof {
        assert(t[k].wf(h));
        lemma_all_at(t, k);
    }
    let right = split_half(&mut children[i], pool, Ghost(h));
    assert(children.len() == t.len());
    children.insert(i + 1, right);
    stats.note_split();
    proof {
        let u = children@;
        let two = seq![u[k], u[k + 1]];
        assert(u =~= t.take(k) + two + t.skip(k + 1));
        lemma_all_replace(t, u, k, two);
        lemma_all_pair(two, 0);
        assert(two.take(0) =~= Seq::empty());
        assert(two.skip(2) =~= Seq::empty());
        assert(marks_all(two) =~= u[k].marks() + u[k + 1].marks());
        assert forall|j: int| 0 <= j < u.len() implies (#[trigger] u[j]).wf(h) by {
            if j < k {
                assert(t[j].wf(h));
            } else if j > k + 1 {
                assert(t[j - 1].wf(h));
            }
        }
        reveal(child_halved);
    }
}

/// What splitting a node that is too full leaves as it was.
proof fn lemma_child_halved(s: Seq<Box<BNode>>, t: Seq<Box<BNode>>, i: int)
    requires
        child_halved(s, t, i),
        s[i].fill() > max_fill(*s[i]),
    ensures
        t.skip(i + 2) == s.skip(i + 1),
        none_twice_full(s) ==> none_twice_full(t),
        none_twice_full(s) && none_overfull(s, i) ==> none_overfull(t, i + 2),
        all_half_fit(s) ==> all_half_fit(t),
        all_half_fit(s) && fit_to(s, i) ==> fit_to(t, i + 2),
        nearly_fed(s) ==> nearly_fed(t),
        all_half_full(s) ==> all_half_full(t),
        all_filled(s) ==> all_filled(t),
{
    reveal(child_halved);
    assert(t.skip(i + 2) =~= s.skip(i + 1));
    if all_filled(s) {
        reveal(all_filled);
        assert(filled(*s[i]));
        lemma_filled_halved(*s[i], *t[i], *t[i + 1]);
        assert forall|j: int| 0 <= j < t.len() implies filled(*#[trigger] t[j]) by {
            if j < i {
                assert(filled(*s[j]));
            } else if j > i + 1 {
                assert(filled(*s[j - 1]));
            }
        }
    }
    if none_twice_full(s) {
        reveal(none_twice_full);
        assert(s[i].fill() <= 2 * max_fill(*s[i]));
        assert forall|j: int| 0 <= j < t.len() implies (#[trigger] t[j]).fill() <= 2 * max_fill(
            *t[j],
        ) by {
            if j < i {
                assert(s[j].fill() <= 2 * max_fill(*s[j]));
            } else if j > i + 1 {
                assert(s[j - 1].fill() <= 2 * max_fill(*s[j - 1]));
            }
        }
        if none_overfull(s, i) {
            reveal(none_overfull);
            assert forall|j: int| 0 <= j < i + 2 && j < t.len() implies (#[trigger] t[j]).fill()
                <= max_fill(*t[j]) by {
                if j < i {
                    assert(s[j].fill() <= max_fill(*s[j]));
                }
            }
        }
    }
    if all_half_fit(s) {
        reveal(all_half_fit);
        assert(fits_below(*s[i]));
        lemma_fits_halved(*s[i], *t[i], *t[i + 1]);
        assert forall|j: int| 0 <= j < t.len() implies fits_below(*#[trigger] t[j]) && t[j].fill()
            <= 2 * max_fill(*t[j]) by {
            if j < i {
                assert(fits_below(*s[j]));
            } else if j > i + 1 {
                assert(fits_below(*s[j - 1]));
            }
        }
        if fit_to(s, i) {
            reveal(fit_to);
            assert forall|j: int| 0 <= j < i + 2 && j < t.len() implies fits(*#[trigger] t[j]) by {
                if j < i {
                    assert(fits(*s[j]));
                } else {
                    assert(s[i].fill() <= 2 * max_fill(*s[i]));
                    lemma_fits(*t[j]);
                }
            }
        }
    }
    if all_half_full(s) {
        reveal(all_half_full);
        assert(half_full(*s[i]));
        lemma_half_full(*s[i]);
        lemma_half_full_halved(*s[i], *t[i], *t[i + 1]);
        assert forall|j: int| 0 <= j < t.len() implies half_full(*#[trigger] t[j]) by {
            if j < i {
                assert(half_full(*s[j]));
            } else if j > i + 1 {
                assert(half_full(*s[j - 1]));
            }
        }
    }
    if nearly_fed(s) {
        reveal(nearly_fed);
        assert forall|j: int| 0 <= j < t.len() implies (#[trigger] t[j]).fill() == 0
            || t[j].fill() + 1 >= min_fill(*t[j]) by {
            if j < i {
                assert(s[j].fill() == 0 || s[j].fill() + 1 >= min_fill(*s[j]));
            } else if j > i + 1 {
                assert(s[j - 1].fill() == 0 || s[j - 1].fill() + 1 >= min_fill(*s[j - 1]));
            }
        }
    }
}

/// A node that is not too full is passed over.
proof fn lemma_child_passed(s: Seq<Box<BNode>>, i: int)
    requires
        0 <= i < s.len(),
        s[i].fill() <= max_fill(*s[i]),
    ensures
        none_overfull(s, i) ==> none_overfull(s, i + 1),
        all_half_fit(s) && fit_to(s, i) ==> fit_to(s, i + 1),
{
    reveal(none_overfull);
    reveal(all_half_fit);
    reveal(fit_to);
    lemma_fits(*s[i]);
}

/// Splits every node that is too full into two.
pub(crate) fn split_overfull_children(
    children: &mut Vec<Box<BNode>>,
    stats: &mut Stats,
    pool: &mut NodePool,
    Ghost(h): Ghost<nat>,
)
    requires
        kids_wf(old(children)@, h),
        marks_all(old(children)@).len() <= usize::MAX,
        old(pool).hollow(),
    ensures
        kids_wf(final(children)@, h),
        final(children)@.len() == old(children)@.len() + overfull_in(old(children)@),
        none_twice_full(old(children)@) ==> none_overfull(
            final(children)@,
            final(children)@.len() as int,
        ),
        all_half_fit(old(children)@) ==> all_fit(final(children)@),
        nearly_fed(old(children)@) ==> nearly_fed(final(children)@),
        all_half_full(old(children)@) ==> all_half_full(final(children)@),
        all_filled(old(children)@) ==> all_filled(final(children)@),
        overfull_in(old(children)@) == 0 ==> final(children)@ == old(children)@,
        marks_all(final(children)@) == marks_all(old(children)@),
        size_all(final(children)@) == size_all(old(children)@) + overfull_in(old(children)@),
        tallied(
            *old(stats),
            *final(stats),
            final(children)@.len() - old(children)@.len(),
            0,
            0,
        ),
        only_made(
            *old(pool),
            *final(pool),
            final(children)@.len() - old(children)@.len(),
        ),
        final(pool).hollow(),
{
    let ghost s = children@;
    let ghost counts = *stats;
    let ghost books = *pool;
    let mut i: usize = 0;
    proof {
        lemma_tallied_none(counts);
        assert(s.skip(0) =~= s);
        assert(none_overfull(s, 0)) by {
            reveal(none_overfull);
        }
        assert(fit_to(s, 0)) by {
            reveal(fit_to);
        }
    }
    while i < children.len()
        invariant
            kids_wf(children@, h),
            children@.len() >= s.len(),
            i <= children@.len(),
            children@.len() + overfull_in(children@.skip(i as int)) == s.len() + overfull_in(s),
            children@.len() == s.len() ==> children@ == s,
            none_twice_full(s) ==> none_twice_full(children@) && none_overfull(
                children@,
                i as int,
            ),
            all_half_fit(s) ==> all_half_fit(children@) && fit_to(children@, i as int),
            nearly_fed(s) ==> nearly_fed(children@),
            all_half_full(s) ==> all_half_full(children@),
            all_filled(s) ==> all_filled(children@),
            marks_all(children@) == marks_all(s),
            marks_all(s).len() <= usize::MAX,
            size_all(children@) - size_all(s) == children@.len() - s.len(),
            tallied(counts, *stats, children@.len() - s.len(), 0, 0),
            only_made(books, *pool, children@.len() - s.len()),
            pool.hollow(),
        decreases children@.len() - i,
    {
        let ghost t = children@;
        proof {
            lemma_overfull_first(t.skip(i as int));
            assert(t.skip(i as int).skip(1) =~= t.skip(i + 1));
        }
        if is_overfull(&children[i]) {
            let ghost seen = *stats;
            split_child(children, i, stats, pool, Ghost(h));
            proof {
                lemma_child_halved(t, children@, i as int);
                assert(children@.len() == t.len() + 1) by {
                    reveal(child_halved);
                }
                lemma_tallied_trans(counts, seen, *stats, t.len() - s.len(), 0, 0, 1, 0, 0);
            }
            assert(children.len() >= i + 2);
            i += 2;
        } else {
            proof {
                lemma_child_passed(t, i as int);
            }
            i += 1;
        }
    }
    proof {
        assert(children@.skip(i as int) =~= Seq::empty());
        reveal(fit_to);
        reveal(all_fit);
    }
}

proof fn lemma_overfull_first(s: Seq<Box<BNode>>)
    requires
        s.len() > 0,
    ensures
        overfull_in(s) == overfull_in(s.skip(1)) + (if s[0].fill() > max_fill(*s[0]) {
            1nat
        } else {
            0nat
        }),
    decreases s.len(),
{
    if s.len() > 1 {
        lemma_overfull_first(s.drop_last());
        assert(s.drop_last().skip(1) =~= s.skip(1).drop_last());
        assert(s.skip(1).last() == s.last());
    } else {
        assert(s.drop_last() =~= s.skip(1));
    }
}

proof fn lemma_overfull_add(s: Seq<Box<BNode>>, t: Seq<Box<BNode>>)
    ensures
        overfull_in(s + t) == overfull_in(s) + overfull_in(t),
    decreases t.len(),
{
    if t.len() > 0 {
        lemma_overfull_add(s, t.drop_last());
        assert((s + t).drop_last() =~= s + t.drop_last());
        assert((s + t).last() == t.last());
    } else {
        assert(s + t =~= s);
    }
}

pub(crate) proof fn lemma_overfull_none(s: Seq<Box<BNode>>)
    ensures
        overfull_in(s) == 0 <==> none_overfull(s, s.len() as int),
    decreases s.len(),
{
    reveal(none_overfull);
    if s.len() > 0 {
        let t = s.drop_last();
        lemma_overfull_none(t);
        if none_overfull(s, s.len() as int) {
            assert forall|k: int| 0 <= k < t.len() implies (#[trigger] t[k]).fill() <= max_fill(
                *t[k],
            ) by {
                assert(t[k] == s[k]);
            }
            assert(s[s.len() - 1].fill() <= max_fill(*s[s.len() - 1]));
        }
        if overfull_in(s) == 0 {
            assert forall|k: int| 0 <= k < s.len() implies (#[trigger] s[k]).fill() <= max_fill(
                *s[k],
            ) by {
                if k < t.len() {
                    assert(t[k].fill() <= max_fill(*t[k]));
                }
            }
        }
    }
}

pub(crate) proof fn lemma_all_fit(s: Seq<Box<BNode>>)
    requires
        all_fit(s),
    ensures
        all_half_fit(s),
        overfull_in(s) == 0,
{
    reveal(all_fit);
    reveal(all_half_fit);
    reveal(none_overfull);
    assert forall|k: int| 0 <= k < s.len() implies fits_below(*#[trigger] s[k]) && s[k].fill()
        <= max_fill(*s[k]) by {
        lemma_fits(*s[k]);
    }
    lemma_overfull_none(s);
}

/// Where nodes lose entries, no more of them are too full.
pub(crate) proof fn lemma_overfull_thinned(s: Seq<Box<BNode>>, t: Seq<Box<BNode>>)
    requires
        thinned(s, t, s.len() as int),
    ensures
        overfull_in(t) <= overfull_in(s),
    decreases s.len(),
{
    reveal(thinned);
    if s.len() > 0 {
        let a = s.drop_last();
        let b = t.drop_last();
        assert forall|k: int| 0 <= k < a.len() implies {
            &&& (*#[trigger] b[k]) is Leaf == (*a[k]) is Leaf
            &&& b[k].fill() <= a[k].fill() <= b[k].fill() + 1
        } by {
            assert(b[k] == t[k] && a[k] == s[k]);
        }
        assert(thinned(a, b, a.len() as int));
        lemma_overfull_thinned(a, b);
        assert(t.last() == t[t.len() - 1]);
    }
}

/// How many of two neighbours and of the others are too full.
proof fn lemma_overfull_pair(s: Seq<Box<BNode>>, i: int)
    requires
        0 <= i < s.len() - 1,
    ensures
        overfull_in(s) == overfull_in(s.take(i)) + overfull_in(seq![s[i]]) + overfull_in(
            seq![s[i + 1]],
        ) + overfull_in(s.skip(i + 2)),
{
    assert(s =~= s.take(i) + seq![s[i]] + seq![s[i + 1]] + s.skip(i + 2));
    lemma_overfull_add(s.take(i) + seq![s[i]] + seq![s[i + 1]], s.skip(i + 2));
    lemma_overfull_add(s.take(i) + seq![s[i]], seq![s[i + 1]]);
    lemma_overfull_add(s.take(i), seq![s[i]]);
}

/// Taking one node away takes away at most one that is too full.
pub(crate) proof fn lemma_overfull_at(s: Seq<Box<BNode>>, i: int)
    requires
        0 <= i < s.len(),
    ensures
        overfull_in(s) <= overfull_in(s.take(i) + s.skip(i + 1)) + 1,
{
    assert(s =~= s.take(i) + seq![s[i]] + s.skip(i + 1));
    lemma_overfull_add(s.take(i) + seq![s[i]], s.skip(i + 1));
    lemma_overfull_add(s.take(i), seq![s[i]]);
    lemma_overfull_add(s.take(i), s.skip(i + 1));
    lemma_overfull_one(s[i]);
}

proof fn lemma_overfull_one(n: Box<BNode>)
    ensures
        overfull_in(seq![n]) == (if n.fill() > max_fill(*n) {
            1nat
        } else {
            0nat
        }),
{
    let s = seq![n];
    assert(s.drop_last() =~= Seq::empty());
    assert(s.last() == n);
    assert(overfull_in(s.drop_last()) == 0);
}

/// An entry went from one of two neighbours to the other, which does not become too full.
proof fn lemma_lent(s: Seq<Box<BNode>>, t: Seq<Box<BNode>>, i: int)
    requires
        0 <= i < s.len() - 1,
        same_but(s, t, i, i + 1),
        s[i].fill() > 0 && last_moved(*s[i], *s[i + 1], *t[i], *t[i + 1]) || s[i + 1].fill() > 0
            && first_moved(*s[i], *s[i + 1], *t[i], *t[i + 1]),
        t[i].fill() > s[i].fill() ==> t[i].fill() <= max_fill(*t[i]),
        t[i + 1].fill() > s[i + 1].fill() ==> t[i + 1].fill() <= max_fill(*t[i + 1]),
    ensures
        overfull_in(t) <= overfull_in(s),
        all_half_fit(s) ==> all_half_fit(t),
        t[i].fill() > 0 && t[i + 1].fill() > 0 && all_filled(s) ==> all_filled(t),
{
    if t[i].fill() > 0 && t[i + 1].fill() > 0 && all_filled(s) {
        lemma_filled_moved(s, t, i);
    }
    lemma_overfull_pair(s, i);
    lemma_overfull_pair(t, i);
    lemma_overfull_one(s[i]);
    lemma_overfull_one(s[i + 1]);
    lemma_overfull_one(t[i]);
    lemma_overfull_one(t[i + 1]);
    assert(t.take(i) =~= s.take(i));
    assert(t.skip(i + 2) =~= s.skip(i + 2));
    if all_half_fit(s) {
        reveal(all_half_fit);
        assert(fits_below(*s[i]) && fits_below(*s[i + 1]));
        lemma_fits_moved(*s[i], *s[i + 1], *t[i], *t[i + 1]);
        assert forall|k: int| 0 <= k < t.len() implies fits_below(*#[trigger] t[k]) && t[k].fill()
            <= 2 * max_fill(*t[k]) by {
            if k != i && k != i + 1 {
                assert(t[k] == s[k]);
            }
        }
    }
}

/// An entry moved between two neighbours, neither of which has none.
proof fn lemma_filled_moved(s: Seq<Box<BNode>>, t: Seq<Box<BNode>>, i: int)
    requires
        0 <= i < s.len() - 1,
        same_but(s, t, i, i + 1),
        s[i].fill() > 0 && last_moved(*s[i], *s[i + 1], *t[i], *t[i + 1]) || s[i + 1].fill() > 0
            && first_moved(*s[i], *s[i + 1], *t[i], *t[i + 1]),
        t[i].fill() > 0,
        t[i + 1].fill() > 0,
        all_filled(s),
    ensures
        all_filled(t),
{
    reveal(all_filled);
    assert(filled(*s[i]) && filled(*s[i + 1]));
    lemma_filled(*s[i]);
    lemma_filled(*s[i + 1]);
    lemma_filled(*t[i]);
    lemma_filled(*t[i + 1]);
    assert forall|k: int| 0 <= k < t.len() implies filled(*#[trigger] t[k]) by {
        if k != i && k != i + 1 {
            assert(t[k] == s[k]);
        }
    }
}

/// Two neighbours became one node, which is not too full.
proof fn lemma_merged(s: Seq<Box<BNode>>, t: Seq<Box<BNode>>, i: int)
    requires
        0 <= i < s.len() - 1,
        t.len() == s.len() - 1,
        appended(*s[i], *s[i + 1], *t[i]),
        forall|k: int| 0 <= k < i ==> #[trigger] t[k] == s[k],
        forall|k: int| i < k < t.len() ==> #[trigger] t[k] == s[k + 1],
        t[i].fill() <= max_fill(*t[i]),
    ensures
        overfull_in(t) <= overfull_in(s),
        all_half_fit(s) ==> all_half_fit(t),
        all_filled(s) ==> all_filled(t),
{
    if all_filled(s) {
        reveal(all_filled);
        assert(filled(*s[i]) && filled(*s[i + 1]));
        lemma_filled(*s[i]);
        lemma_filled(*s[i + 1]);
        lemma_filled(*t[i]);
        assert forall|k: int| 0 <= k < t.len() implies filled(*#[trigger] t[k]) by {
            if k < i {
                assert(filled(*s[k]));
            } else if k > i {
                assert(filled(*s[k + 1]));
            }
        }
    }
    lemma_overfull_pair(s, i);
    lemma_overfull_one(t[i]);
    assert(t =~= s.take(i) + seq![t[i]] + s.skip(i + 2));
    lemma_overfull_add(s.take(i) + seq![t[i]], s.skip(i + 2));
    lemma_overfull_add(s.take(i), seq![t[i]]);
    if all_half_fit(s) {
        reveal(all_half_fit);
        assert(fits_below(*s[i]) && fits_below(*s[i + 1]));
        lemma_fits_appended(*s[i], *s[i + 1], *t[i]);
        assert forall|k: int| 0 <= k < t.len() implies fits_below(*#[trigger] t[k]) && t[k].fill()
            <= 2 * max_fill(*t[k]) by {
            if k < i {
                assert(fits_below(*s[k]));
            } else if k > i {
                assert(fits_below(*s[k + 1]));
            }
        }
    }
}

/// Moves the last piece or child of `left` to the front of `right`.
fn move_last(left: &mut BNode, right: &mut BNode, Ghost(h): Ghost<nat>)
    requires
        old(left).wf(h),
        old(right).wf(h),
        old(left).fill() > 1,
        old(left).marks().len() + old(right).marks().len() <= usize::MAX,
    ensures
        final(left).wf(h),
        final(right).wf(h),
        final(left).marks() + final(right).marks() == old(left).marks() + old(right).marks(),
        final(left).size() + final(right).size() == old(left).size() + old(right).size(),
        final(left).fill() == old(left).fill() - 1,
        final(right).fill() == old(right).fill() + 1,
        last_moved(*old(left), *old(right), *final(left), *final(right)),
{
    match left {
        BNode::Leaf { pieces: left_pieces, .. } => {
            match right {
                BNode::Leaf { pieces: right_pieces, .. } => {
                    let ghost l = left_pieces@;
                    let ghost r = right_pieces@;
                    let moved = left_pieces.pop().unwrap();
                    right_pieces.insert(0, moved);
                    proof {
                        assert(left_pieces@ =~= l.drop_last());
                        assert(right_pieces@ =~= seq![moved] + r);
                        lemma_marks_add(seq![moved], r);
                        lemma_marks_one(moved);
                        assert(marks_of(l.drop_last()) + marks_of(seq![moved] + r) =~= marks_of(l)
                            + marks_of(r));
                        assert(l.last().sound());
                        assert(all_sound(right_pieces@)) by {
                            assert forall|k: int| 0 <= k < right_pieces@.len() implies (
                            #[trigger] right_pieces@[k]).sound() by {
                                if k > 0 {
                                    assert(r[k - 1].sound());
                                }
                            }
                        }
                    }
                },
                BNode::Internal { .. } => {},
            }
        },
        BNode::Internal { children: left_children, .. } => {
            match right {
                BNode::Internal { children: right_children, .. } => {
                    let ghost l = left_children@;
                    let ghost r = right_children@;
                    let ghost k = (h - 1) as nat;
                    let moved = left_children.pop().unwrap();
                    right_children.insert(0, moved);
                    proof {
                        assert(left_children@ =~= l.drop_last());
                        assert(right_children@ =~= seq![moved] + r);
                        lemma_all_add(seq![moved], r);
                        lemma_all_one(moved);
                        assert(marks_all(l.drop_last()) + marks_all(seq![moved] + r) =~= marks_all(
                            l,
                        ) + marks_all(r));
                        assert(l.last().wf(k));
                        assert(kids_wf(right_children@, k)) by {
                            assert forall|j: int| 0 <= j < right_children@.len() implies (
                            #[trigger] right_children@[j]).wf(k) by {
                                if j > 0 {
                                    assert(r[j - 1].wf(k));
                                }
                            }
                        }
                    }
                },
                BNode::Leaf { .. } => {},
            }
        },
    }
    left.update_len(Ghost(h));
    right.update_len(Ghost(h));
}

/// Moves the first piece or child of `right` to the end of `left`.
fn move_first(left: &mut BNode, right: &mut BNode, Ghost(h): Ghost<nat>)
    requires
        old(left).wf(h),
        old(right).wf(h),
        old(right).fill() > 1,
        old(left).marks().len() + old(right).marks().len() <= usize::MAX,
    ensures
        final(left).wf(h),
        final(right).wf(h),
        final(left).marks() + final(right).marks() == old(left).marks() + old(right).marks(),
        final(left).size() + final(right).size() == old(left).size() + old(right).size(),
        final(left).fill() == old(left).fill() + 1,
        final(right).fill() == old(right).fill() - 1,
        first_moved(*old(left), *old(right), *final(left), *final(right)),
{
    match left {
        BNode::Leaf { pieces: left_pieces, .. } => {
            match right {
                BNode::Leaf { pieces: right_pieces, .. } => {
                    let ghost l = left_pieces@;
                    let ghost r = right_pieces@;
                    let moved = right_pieces.remove(0);
                    left_pieces.push(moved);
                    proof {
                        assert(r[0].sound());
                        assert(l.push(moved).drop_last() =~= l);
                        assert(r =~= seq![moved] + right_pieces@);
                        lemma_marks_add(seq![moved], right_pieces@);
                        lemma_marks_one(moved);
                        assert(marks_of(l.push(moved)) + marks_of(right_pieces@) =~= marks_of(l)
                            + marks_of(r));
                        assert(all_sound(right_pieces@)) by {
                            assert forall|k: int| 0 <= k < right_pieces@.len() implies (
                            #[trigger] right_pieces@[k]).sound() by {
                                assert(r[k + 1].sound());
                            }
                        }
                    }
                },
                BNode::Internal { .. } => {},
            }
        },
        BNode::Internal { children: left_children, .. } => {
            match right {
                BNode::Internal { children: right_children, .. } => {
                    let ghost l = left_children@;
                    let ghost r = right_children@;
                    let ghost k = (h - 1) as nat;
                    let moved = right_children.remove(0);
                    left_children.push(moved);
                    proof {
                        assert(r[0].wf(k));
                        assert(l.push(moved).drop_last() =~= l);
                        assert(r =~= seq![moved] + right_children@);
                        lemma_all_add(seq![moved], right_children@);
                        lemma_all_one(moved);
                        assert(marks_all(l.push(moved)) + marks_all(right_children@)
                            =~= marks_all(l) + marks_all(r));
                        assert(kids_wf(right_children@, k)) by {
                            assert forall|j: int| 0 <= j < right_children@.len() implies (
                            #[trigger] right_children@[j]).wf(k) by {
                                assert(r[j + 1].wf(k));
                            }
                        }
                    }
                },
                BNode::Leaf { .. } => {},
            }
        },
    }
    left.update_len(Ghost(h));
    right.update_len(Ghost(h));
}

/// Moves all pieces or children of `right` to the end of `left`.
fn absorb(left: &mut BNode, right: &mut BNode, Ghost(h): Ghost<nat>)
    requires
        old(left).wf(h),
        old(right).wf(h),
        old(left).marks().len() + old(right).marks().len() <= usize::MAX,
    ensures
        final(left).wf(h),
        final(left).marks() == old(left).marks() + old(right).marks(),
        final(left).size() + 1 == old(left).size() + old(right).size(),
        final(left).fill() == old(left).fill() + old(right).fill(),
        appended(*old(left), *old(right), *final(left)),
        final(right).fill() == 0,
{
    match left {
        BNode::Leaf { pieces: left_pieces, .. } => {
            match right {
                BNode::Leaf { pieces: right_pieces, .. } => {
                    let ghost l = left_pieces@;
                    let ghost r = right_pieces@;
                    left_pieces.append(right_pieces);
                    proof {
                        lemma_marks_add(l, r);
                    }
                },
                BNode::Internal { .. } => {},
            }
        },
        BNode::Internal { children: left_children, .. } => {
            match right {
                BNode::Internal { children: right_children, .. } => {
                    let ghost l = left_children@;
                    let ghost r = right_children@;
                    left_children.append(right_children);
                    proof {
                        lemma_all_add(l, r);
                    }
                },
                BNode::Leaf { .. } => {},
            }
        },
    }
    left.update_len(Ghost(h));
}

/// The lists differ at most in the places `i` and `j`.
pub open spec fn same_but(s: Seq<Box<BNode>>, t: Seq<Box<BNode>>, i: int, j: int) -> bool {
    &&& s.len() == t.len()
    &&& forall|k: int| 0 <= k < s.len() && k != i && k != j ==> #[trigger] t[k] == s[k]
}

/// Gives node `idx` the last piece or child of the node before it, if that can spare it.
pub(crate) fn borrow_from_left(
    children: &mut Vec<Box<BNode>>,
    idx: usize,
    Ghost(h): Ghost<nat>,
) -> (b: bool)
    requires
        kids_wf(old(children)@, h),
        idx < old(children)@.len(),
        marks_all(old(children)@).len() <= usize::MAX,
    ensures
        b == (idx > 0 && old(children)@[idx - 1].fill() > min_fill(*old(children)@[idx - 1])),
        kids_wf(final(children)@, h),
        final(children)@.len() == old(children)@.len(),
        marks_all(final(children)@) == marks_all(old(children)@),
        size_all(final(children)@) == size_all(old(children)@),
        b && underfull(*old(children)@[idx as int]) ==> {
            &&& deficit_all(final(children)@) < deficit_all(old(children)@)
            &&& overfull_in(final(children)@) <= overfull_in(old(children)@)
            &&& all_half_fit(old(children)@) ==> all_half_fit(final(children)@)
            &&& all_filled(old(children)@) ==> all_filled(final(children)@)
        },
        b ==> {
            &&& final(children)@[idx - 1].fill() == old(children)@[idx - 1].fill() - 1
            &&& final(children)@[idx as int].fill() == old(children)@[idx as int].fill() + 1
            &&& last_moved(
                *old(children)@[idx - 1],
                *old(children)@[idx as int],
                *final(children)@[idx - 1],
                *final(children)@[idx as int],
            )
            &&& same_but(old(children)@, final(children)@, idx - 1, idx as int)
        },
        !b ==> *final(children) == *old(children),
{
    if idx == 0 {
        return false;
    }
    if !can_lend(&children[idx - 1]) {
        return false;
    }
    let ghost s = children@;
    proof {
        assert(s[idx - 1].wf(h) && s[idx as int].wf(h));
        lemma_all_pair(s, idx - 1);
    }
    let (left, right) = children.split_at_mut(idx);
    move_last(&mut left[idx - 1], &mut right[0], Ghost(h));
    proof {
        assert(children@.len() == s.len());
        if underfull(*s[idx as int]) {
            lemma_lent(s, children@, idx - 1);
        }
        lemma_pair_replaced(s, children@, idx - 1, h);
    }
    true
}

/// Gives node `idx` the first piece or child of the node after it, if that can spare it.
pub(crate) fn borrow_from_right(
    children: &mut Vec<Box<BNode>>,
    idx: usize,
    Ghost(h): Ghost<nat>,
) -> (b: bool)
    requires
        kids_wf(old(children)@, h),
        idx < old(children)@.len(),
        marks_all(old(children)@).len() <= usize::MAX,
    ensures
        b == (idx + 1 < old(children)@.len() && old(children)@[idx + 1].fill() > min_fill(
            *old(children)@[idx + 1],
        )),
        kids_wf(final(children)@, h),
        final(children)@.len() == old(children)@.len(),
        marks_all(final(children)@) == marks_all(old(children)@),
        size_all(final(children)@) == size_all(old(children)@),
        b && underfull(*old(children)@[idx as int]) ==> {
            &&& deficit_all(final(children)@) < deficit_all(old(children)@)
            &&& overfull_in(final(children)@) <= overfull_in(old(children)@)
            &&& all_half_fit(old(children)@) ==> all_half_fit(final(children)@)
            &&& all_filled(old(children)@) ==> all_filled(final(children)@)
        },
        b ==> {
            &&& final(children)@[idx as int].fill() == old(children)@[idx as int].fill() + 1
            &&& final(children)@[idx + 1].fill() == old(children)@[idx + 1].fill() - 1
            &&& first_moved(
                *old(children)@[idx as int],
                *old(children)@[idx + 1],
                *final(children)@[idx as int],
                *final(children)@[idx + 1],
            )
            &&& same_but(old(children)@, final(children)@, idx as int, idx + 1)
        },
        !b ==> *final(children) == *old(children),
{
    if idx >= children.len() - 1 {
        return false;
    }
    if !can_lend(&children[idx + 1]) {
        return false;
    }
    let ghost s = children@;
    proof {
        assert(s[idx as int].wf(h) && s[idx + 1].wf(h));
        lemma_all_pair(s, idx as int);
    }
    let (left, right) = children.split_at_mut(idx + 1);
    move_first(&mut left[idx], &mut right[0], Ghost(h));
    proof {
        assert(children@.len() == s.len());
        if underfull(*s[idx as int]) {
            lemma_lent(s, children@, idx as int);
        }
        lemma_pair_replaced(s, children@, idx as int, h);
    }
    true
}

/// Merges node `left_idx + 1` into node `left_idx`, if there is one.
pub(crate) fn merge_children(
    children: &mut Vec<Box<BNode>>,
    left_idx: usize,
    stats: &mut Stats,
    pool: &mut NodePool,
    Ghost(h): Ghost<nat>,
)
    requires
        kids_wf(old(children)@, h),
        marks_all(old(children)@).len() <= usize::MAX,
        old(pool).hollow(),
    ensures
        left_idx + 1 >= old(children)@.len() ==> {
            &&& *final(children) == *old(children)
            &&& *final(stats) == *old(stats)
            &&& *final(pool) == *old(pool)
        },
        left_idx + 1 < old(children)@.len() ==> {
            &&& kids_wf(final(children)@, h)
            &&& final(children)@.len() == old(children)@.len() - 1
            &&& marks_all(final(children)@) == marks_all(old(children)@)
            &&& size_all(final(children)@) + 1 == size_all(old(children)@)
            &&& appended(
                *old(children)@[left_idx as int],
                *old(children)@[left_idx + 1],
                *final(children)@[left_idx as int],
            )
            &&& forall|k: int|
                0 <= k < left_idx ==> #[trigger] final(children)@[k] == old(children)@[k]
            &&& forall|k: int|
                left_idx < k < final(children)@.len() ==> #[trigger] final(children)@[k] == old(
                    children,
                )@[k + 1]
            &&& tallied(*old(stats), *final(stats), 0, 1, 0)
            &&& final(pool).made() == old(pool).made()
            &&& final(pool).merged() == old(pool).merged() + 1
            &&& final(pool).freed() == old(pool).freed() + 1
        },
        final(pool).hollow(),
{
    if left_idx >= children.len() || children.len() - left_idx < 2 {
        return ;
    }
    let ghost s = children@;
    let ghost i = left_idx as int;
    proof {
        assert(s[i].wf(h) && s[i + 1].wf(h));
        lemma_all_pair(s, i);
    }
    let mut right = children.remove(left_idx + 1);
    absorb(&mut children[left_idx], &mut right, Ghost(h));
    proof {
        let t = children@;
        let one = seq![t[i]];
        assert(t =~= s.take(i) + one + s.skip(i + 2));
        lemma_all_add(s.take(i) + one, s.skip(i + 2));
        lemma_all_add(s.take(i), one);
        lemma_all_one(t[i]);
        assert forall|k: int| 0 <= k < t.len() implies (#[trigger] t[k]).wf(h) by {
            if k < i {
                assert(s[k].wf(h));
            } else if k > i {
                assert(s[k + 1].wf(h));
            }
        }
    }
    stats.note_merge();
    pool.recycle_merged(right);
}

/// None of the first `n` nodes is underfull.
pub open spec fn fed(s: Seq<Box<BNode>>, n: int) -> bool {
    forall|k: int| 0 <= k < n && k < s.len() ==> !underfull(*#[trigger] s[k])
}

/// Lets every underfull node take from its neighbours or be merged with one, so that none is
/// left unless there is no other node.
pub(crate) fn rebalance_children(
    children: &mut Vec<Box<BNode>>,
    stats: &mut Stats,
    pool: &mut NodePool,
    Ghost(h): Ghost<nat>,
)
    requires
        kids_wf(old(children)@, h),
        marks_all(old(children)@).len() <= usize::MAX,
        old(pool).hollow(),
    ensures
        kids_wf(final(children)@, h),
        old(children)@.len() > 0 ==> final(children)@.len() > 0,
        marks_all(final(children)@) == marks_all(old(children)@),
        size_all(final(children)@) <= size_all(old(children)@),
        final(children)@.len() > 1 ==> fed(final(children)@, final(children)@.len() as int),
        overfull_in(final(children)@) <= overfull_in(old(children)@),
        none_overfull(old(children)@, old(children)@.len() as int) ==> none_overfull(
            final(children)@,
            final(children)@.len() as int,
        ),
        all_half_fit(old(children)@) ==> all_half_fit(final(children)@),
        all_filled(old(children)@) ==> all_filled(final(children)@),
        all_half_full(old(children)@) ==> final(children)@ == old(children)@,
        final(children)@.len() <= old(children)@.len(),
        tallied(
            *old(stats),
            *final(stats),
            0,
            size_all(old(children)@) - size_all(final(children)@),
            0,
        ),
        only_merged(
            *old(pool),
            *final(pool),
            size_all(old(children)@) - size_all(final(children)@),
        ),
        final(pool).hollow(),
{
    let ghost s = children@;
    let ghost counts = *stats;
    let ghost books = *pool;
    proof {
        lemma_tallied_none(counts);
    }
    if children.len() < 2 {
        return ;
    }
    let mut i: usize = 0;
    while i < children.len()
        invariant
            kids_wf(children@, h),
            children@.len() > 0,
            marks_all(children@) == marks_all(s),
            marks_all(s).len() <= usize::MAX,
            size_all(children@) <= size_all(s),
            tallied(counts, *stats, 0, size_all(s) - size_all(children@), 0),
            overfull_in(children@) <= overfull_in(s),
            all_half_fit(s) ==> all_half_fit(children@),
            all_filled(s) ==> all_filled(children@),
            all_half_full(s) ==> children@ == s,
            children@.len() <= s.len(),
            only_merged(books, *pool, size_all(s) - size_all(children@)),
            pool.hollow(),
            i <= children@.len(),
            children@.len() > 1 ==> fed(children@, i as int),
        decreases children@.len(), deficit_all(children@), children@.len() - i,
    {
        let ghost now = children@;
        proof {
            assert(now[i as int].wf(h));
            if i > 0 {
                assert(now[i - 1].wf(h));
            }
            if i + 1 < now.len() {
                assert(now[i + 1].wf(h));
            }
        }
        if !is_underfull(&children[i]) {
            i += 1;
            continue ;
        }
        assert(!all_half_full(s)) by {
            if all_half_full(s) {
                reveal(all_half_full);
                assert(half_full(*s[i as int]));
                lemma_half_full(*s[i as int]);
            }
        }
        let borrowed_left = i > 0 && same_kind(&children[i - 1], &children[i]) && can_lend(
            &children[i - 1],
        ) && borrow_from_left(children, i, Ghost(h));
        if borrowed_left {
            i -= 1;
            continue ;
        }
        let borrowed_right = i < children.len() - 1 && same_kind(&children[i], &children[i + 1])
            && can_lend(&children[i + 1]) && borrow_from_right(children, i, Ghost(h));
        if borrowed_right {
            if i > 0 {
                i -= 1;
            }
            continue ;
        }
        let ghost seen = *stats;
        let ghost merged = size_all(s) - size_all(children@);
        if i > 0 && same_kind(&children[i - 1], &children[i]) {
            merge_children(children, i - 1, stats, pool, Ghost(h));
            proof {
                lemma_merged(now, children@, i - 1);
                lemma_tallied_trans(counts, seen, *stats, 0, merged, 0, 0, 1, 0);
            }
            i -= 1;
            continue ;
        }
        if i < children.len() - 1 && same_kind(&children[i], &children[i + 1]) {
            merge_children(children, i, stats, pool, Ghost(h));
            proof {
                lemma_merged(now, children@, i as int);
                lemma_tallied_trans(counts, seen, *stats, 0, merged, 0, 0, 1, 0);
            }
            continue ;
        }
        i += 1;
    }
    proof {
        lemma_overfull_none(s);
        lemma_overfull_none(children@);
    }
}

} // verus!
