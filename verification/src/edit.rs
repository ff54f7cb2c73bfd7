//! Edits of the tree.
use vstd::prelude::*;

use crate::balance::{
    all_filled, all_fit, all_half_fit, all_half_full, all_roomy, all_spare, fed, filled, fits,
    fits_below, half_full, half_full_below, is_overfull, lemma_all_fit, lemma_filled,
    lemma_filled_halved, lemma_fits, lemma_fits_halved, lemma_half_full, lemma_half_full_halved,
    lemma_overfull_at, lemma_overfull_thinned, lemma_room, max_fill, min_fill, nearly_fed,
    none_overfull, none_twice_full, normalize_adjacent_leaves, overfull_in, rebalance_children,
    roomy, spare, split_half, split_overfull_children, thinned,
};
use crate::content::lemma_fused_equal;
use crate::list::{
    can_coalesce, leaf_delete_range, leaf_insert_piece, lemma_heads_cut, lemma_heads_fused,
    lemma_heads_splice, one_if,
};
use crate::piece::{
    all_sound, coherent, continues, cut, distinct, fused, headed, heads, inside, joined,
    lemma_cut_cut, lemma_cut_within, lemma_fused_add, lemma_fused_cut, lemma_fused_trans,
    lemma_heads_add, lemma_heads_of, lemma_marks_at, lemma_marks_one, lemma_marks_opens,
    lemma_marks_prefix, lemma_merge_at, lemma_splice_within, loose, marks_of, merge_at, opens, run,
    settled, splice, BufferKind, Mark, Piece,
};
use crate::stats::{lemma_tallied_none, lemma_tallied_trans, tallied, Stats};
use crate::tree::{
    books_kept, child_index_and_start_for_pos, kids_wf, lemma_all_at, lemma_all_one,
    lemma_all_opens, lemma_all_pair, lemma_all_remove, lemma_all_replace, lemma_all_update,
    lemma_inside_within, lemma_node_coherent, lemma_node_opens, lemma_tall, lies_at, marks_all,
    only_made, size_all, BNode, NodePool,
};

verus! {

pub open spec fn opt_marks(r: Option<Box<BNode>>) -> Seq<Mark> {
    match r {
        Some(n) => n.marks(),
        None => Seq::empty(),
    }
}

pub open spec fn opt_size(r: Option<Box<BNode>>) -> nat {
    match r {
        Some(n) => n.size(),
        None => 0,
    }
}

/// What an insertion that turned `before` into `after` and made `made` nodes counts.
pub open spec fn insert_tally(
    before: Seq<Mark>,
    pos: int,
    after: Seq<Mark>,
    made: int,
    s: Stats,
    t: Stats,
) -> bool {
    let split = one_if(inside(before, pos));
    let joins = heads(before) + 1 + split - heads(after);
    tallied(s, t, split + made, joins, joins)
}

/// Node `i` of `s` replaced by the nodes `xs`, which hold the document `e` with some pieces
/// merged.
proof fn lemma_child_replaced(
    s: Seq<Box<BNode>>,
    t: Seq<Box<BNode>>,
    i: int,
    xs: Seq<Box<BNode>>,
    e: Seq<Mark>,
    h: nat,
)
    requires
        0 <= i < s.len(),
        kids_wf(s, h),
        kids_wf(xs, h),
        t == s.take(i) + xs + s.skip(i + 1),
        fused(e, marks_all(xs)),
    ensures
        kids_wf(t, h),
        fused(marks_all(s.take(i)) + e + marks_all(s.skip(i + 1)), marks_all(t)),
        size_all(t) - size_all(s) == size_all(xs) - s[i].size(),
        heads(marks_all(t)) - heads(marks_all(s)) == heads(marks_all(xs)) - heads(s[i].marks()),
{
    let a = marks_all(s.take(i));
    let b = s[i].marks();
    let c = marks_all(s.skip(i + 1));
    let d = marks_all(xs);
    assert forall|j: int| 0 <= j < t.len() implies (#[trigger] t[j]).wf(h) by {
        if j < i {
            assert(s[j].wf(h));
        } else if j < i + xs.len() {
            assert(xs[j - i].wf(h));
        } else {
            assert(s[j + 1 - xs.len()].wf(h));
        }
    }
    lemma_all_at(s, i);
    lemma_all_replace(s, t, i, xs);
    lemma_fused_add(a, a, e, d);
    lemma_fused_add(a + e, a + d, c, c);
    lemma_heads_add(a + b, c);
    lemma_heads_add(a, b);
    lemma_heads_add(a + d, c);
    lemma_heads_add(a, d);
}

/// One of some nodes that have no more than they are to have.
proof fn lemma_fit_at(s: Seq<Box<BNode>>, i: int)
    requires
        all_fit(s),
        0 <= i < s.len(),
    ensures
        fits(*s[i]),
        fits_below(*s[i]),
        s[i].fill() <= max_fill(*s[i]),
{
    reveal(all_fit);
    lemma_fits(*s[i]);
}

/// Node `i` of `s` replaced by the nodes `xs`, none of which is too full.
proof fn lemma_fit_replaced(
    s: Seq<Box<BNode>>,
    t: Seq<Box<BNode>>,
    i: int,
    xs: Seq<Box<BNode>>,
)
    requires
        0 <= i < s.len(),
        all_fit(s),
        forall|k: int| 0 <= k < xs.len() ==> fits(*#[trigger] xs[k]),
        t == s.take(i) + xs + s.skip(i + 1),
    ensures
        all_fit(t),
{
    reveal(all_fit);
    assert forall|j: int| 0 <= j < t.len() implies fits(*#[trigger] t[j]) by {
        if j < i {
            assert(fits(*s[j]));
        } else if j < i + xs.len() {
            assert(fits(*xs[j - i]));
        } else {
            assert(fits(*s[j + 1 - xs.len()]));
        }
    }
}

/// What room there is below nodes there is below one of them.
proof fn lemma_room_at(s: Seq<Box<BNode>>, i: int, k: int)
    requires
        0 <= i < s.len(),
    ensures
        all_roomy(s, k) ==> roomy(*s[i], k),
        all_spare(s) ==> spare(*s[i]),
{
    reveal(all_roomy);
    reveal(all_spare);
}

/// A node, and the node that is to follow it if there is one.
spec fn opt_nodes(first: Box<BNode>, r: Option<Box<BNode>>) -> Seq<Box<BNode>> {
    match r {
        Some(n) => seq![first, n],
        None => seq![first],
    }
}

proof fn lemma_opt_nodes(first: Box<BNode>, r: Option<Box<BNode>>)
    ensures
        marks_all(opt_nodes(first, r)) == first.marks() + opt_marks(r),
        size_all(opt_nodes(first, r)) == first.size() + opt_size(r),
{
    let s = opt_nodes(first, r);
    lemma_all_one(first);
    match r {
        Some(n) => {
            lemma_all_pair(s, 0);
            assert(s.take(0) =~= Seq::empty());
            assert(s.skip(2) =~= Seq::empty());
        },
        None => {},
    }
    assert(marks_all(s) =~= first.marks() + opt_marks(r));
}

/// What is known of child `i` before an edit of it.
proof fn lemma_child_before(s: Seq<Box<BNode>>, i: int, h: nat)
    requires
        0 <= i < s.len(),
        kids_wf(s, h),
    ensures
        s[i].wf(h),
        s[i].span() == s[i].marks().len(),
        opens(s[i].marks()),
        opens(marks_all(s.skip(i + 1))),
        marks_all(s) == marks_all(s.take(i)) + s[i].marks() + marks_all(s.skip(i + 1)),
        s[i].span() <= marks_all(s).len(),
{
    assert(s[i].wf(h));
    lemma_all_at(s, i);
    assert(kids_wf(s.skip(i + 1), h));
    lemma_all_opens(s.skip(i + 1), h);
    lemma_node_opens(*s[i], h);
}

/// Merges pieces across neighbouring leaves and splits nodes that are too full.
fn settle_children(
    children: &mut Vec<Box<BNode>>,
    stats: &mut Stats,
    pool: &mut NodePool,
    Ghost(h): Ghost<nat>,
)
    requires
        kids_wf(old(children)@, h),
        marks_all(old(children)@).len() <= usize::MAX,
        old(pool).hollow(),
    ensures
        kids_wf(final(children)@, h),
        final(children)@.len() >= old(children)@.len(),
        final(children)@.len() <= old(children)@.len() + overfull_in(old(children)@),
        fused(marks_all(old(children)@), marks_all(final(children)@)),
        size_all(final(children)@) - size_all(old(children)@) == final(children)@.len() - old(
            children,
        )@.len(),
        ({
            let made = size_all(final(children)@) - size_all(old(children)@);
            let joins = heads(marks_all(old(children)@)) - heads(marks_all(final(children)@));
            &&& tallied(*old(stats), *final(stats), made, joins, joins)
            &&& only_made(*old(pool), *final(pool), made)
        }),
        none_twice_full(old(children)@) ==> none_overfull(
            final(children)@,
            final(children)@.len() as int,
        ),
        all_half_fit(old(children)@) ==> all_fit(final(children)@),
        all_fit(old(children)@) ==> all_fit(final(children)@) && final(children)@.len() == old(
            children,
        )@.len(),
        final(children)@.len() > 1 && (old(children)@.len() > 1 ==> fed(
            old(children)@,
            old(children)@.len() as int,
        )) ==> nearly_fed(final(children)@),
        heads(marks_all(final(children)@)) == heads(marks_all(old(children)@)) ==> {
            &&& all_half_full(old(children)@) ==> all_half_full(final(children)@)
            &&& all_filled(old(children)@) ==> all_filled(final(children)@)
            &&& nearly_fed(old(children)@) ==> nearly_fed(final(children)@)
        },
        all_filled(old(children)@) && (old(children)@.len() > 1 ==> fed(
            old(children)@,
            old(children)@.len() as int,
        )) ==> all_filled(final(children)@),
        final(pool).hollow(),
{
    let ghost s = children@;
    let ghost counts = *stats;
    normalize_adjacent_leaves(children, stats, Ghost(h));
    let ghost t = children@;
    proof {
        lemma_normalized(s, t, h);
    }
    let ghost seen = *stats;
    split_overfull_children(children, stats, pool, Ghost(h));
    proof {
        let joins = heads(marks_all(s)) - heads(marks_all(t));
        let made = size_all(children@) - size_all(t);
        lemma_tallied_trans(counts, seen, *stats, 0, joins, joins, made, 0, 0);
    }
}

/// What merging pieces across neighbouring leaves leaves of how full the nodes are.
proof fn lemma_normalized(s: Seq<Box<BNode>>, t: Seq<Box<BNode>>, h: nat)
    requires
        kids_wf(s, h),
        kids_wf(t, h),
        thinned(s, t, s.len() as int),
        h > 1 || s.len() < 2 ==> t == s,
    ensures
        all_filled(s) && (s.len() > 1 ==> fed(s, s.len() as int)) ==> all_filled(t),
        none_twice_full(s) ==> none_twice_full(t),
        overfull_in(t) <= overfull_in(s),
        all_half_fit(s) ==> all_half_fit(t),
        all_fit(s) ==> all_half_fit(s) && overfull_in(s) == 0,
        s.len() > 1 && fed(s, s.len() as int) ==> nearly_fed(t),
        s.len() <= 1 && overfull_in(t) > 0 ==> nearly_fed(t),
{
    lemma_overfull_thinned(s, t);
    reveal(thinned);
    if all_filled(s) && h <= 1 && s.len() > 1 && fed(s, s.len() as int) {
        reveal(all_filled);
        assert forall|k: int| 0 <= k < t.len() implies filled(*#[trigger] t[k]) by {
            assert(filled(*s[k]) && !crate::balance::underfull(*s[k]));
            assert(s[k].wf(h) && t[k].wf(h));
            lemma_filled(*s[k]);
            lemma_filled(*t[k]);
        }
    }
    if none_twice_full(s) {
        reveal(none_twice_full);
        assert forall|k: int| 0 <= k < t.len() implies (#[trigger] t[k]).fill() <= 2 * max_fill(
            *t[k],
        ) by {
            assert(s[k].fill() <= 2 * max_fill(*s[k]));
        }
    }
    if all_half_fit(s) && h <= 1 {
        reveal(all_half_fit);
        assert forall|k: int| 0 <= k < t.len() implies fits_below(*#[trigger] t[k]) && t[k].fill()
            <= 2 * max_fill(*t[k]) by {
            assert(s[k].fill() <= 2 * max_fill(*s[k]));
            assert(t[k].wf(h));
        }
    }
    if all_fit(s) {
        lemma_all_fit(s);
    }
    if s.len() > 1 && fed(s, s.len() as int) {
        reveal(nearly_fed);
        assert forall|k: int| 0 <= k < t.len() implies (#[trigger] t[k]).fill() == 0
            || t[k].fill() + 1 >= min_fill(*t[k]) by {
            assert(!crate::balance::underfull(*s[k]));
        }
    }
    if s.len() <= 1 && overfull_in(t) > 0 {
        reveal(nearly_fed);
        reveal_with_fuel(overfull_in, 2);
        assert(t.len() == 1);
        assert(t.last() == t[0]);
    }
}

/// An insertion at `pos` that made `after` of `before` merged no pieces.
pub open spec fn nothing_joined(before: Seq<Mark>, pos: int, after: Seq<Mark>) -> bool {
    heads(after) == heads(before) + 1 + one_if(inside(before, pos))
}

/// After an insertion there are at most as many pieces as if none were merged.
proof fn lemma_at_most_joined(before: Seq<Mark>, pos: int, piece: Piece, after: Seq<Mark>)
    requires
        0 <= pos <= before.len(),
        opens(before),
        piece.sound(),
        fused(splice(before, pos, piece.marks()), after),
    ensures
        heads(after) <= heads(before) + 1 + one_if(inside(before, pos)),
{
    lemma_heads_of(seq![piece]);
    lemma_marks_one(piece);
    lemma_heads_splice(before, pos, piece.marks());
    lemma_heads_fused(splice(before, pos, piece.marks()), after);
}

/// Where every node below `before` was at least half full and no pieces are merged, an insertion
/// that left `after`, and `r` to follow it, keeps this: and both are at least half full, or there
/// is no `r` and `after` has no fewer entries.
pub open spec fn insert_keeps_half(
    before: BNode,
    pos: int,
    after: BNode,
    r: Option<Box<BNode>>,
) -> bool {
    half_full_below(before) && nothing_joined(
        before.marks(),
        pos,
        after.marks() + opt_marks(r),
    ) ==> match r {
        Some(n) => half_full(after) && half_full(*n),
        None => half_full_below(after) && after.fill() >= before.fill() && (before is Leaf
            == after is Leaf),
    }
}

/// Where every leaf at or below `before` had a piece and no pieces are merged, an insertion that
/// left `after`, and `r` to follow it, keeps this.
pub open spec fn insert_keeps_filled(
    before: BNode,
    pos: int,
    after: BNode,
    r: Option<Box<BNode>>,
) -> bool {
    filled(before) && nothing_joined(before.marks(), pos, after.marks() + opt_marks(r)) ==> {
        &&& filled(after)
        &&& r matches Some(n) ==> filled(*n)
    }
}

proof fn lemma_filled_inserted(
    s: Seq<Box<BNode>>,
    t: Seq<Box<BNode>>,
    i: int,
    pos: int,
    first: Box<BNode>,
    given: Option<Box<BNode>>,
)
    requires
        0 <= i < s.len(),
        all_filled(s),
        t == s.take(i) + opt_nodes(first, given) + s.skip(i + 1),
        insert_keeps_filled(*s[i], pos, *first, given),
        nothing_joined(s[i].marks(), pos, first.marks() + opt_marks(given)),
    ensures
        all_filled(t),
{
    reveal(all_filled);
    let xs = opt_nodes(first, given);
    assert(filled(*s[i]));
    assert forall|j: int| 0 <= j < t.len() implies filled(*#[trigger] t[j]) by {
        if j < i {
            assert(filled(*s[j]));
        } else if j >= i + xs.len() {
            assert(filled(*s[j + 1 - xs.len()]));
        }
    }
}

proof fn lemma_half_full_inserted(
    s: Seq<Box<BNode>>,
    t: Seq<Box<BNode>>,
    i: int,
    pos: int,
    first: Box<BNode>,
    given: Option<Box<BNode>>,
)
    requires
        0 <= i < s.len(),
        all_half_full(s),
        t == s.take(i) + opt_nodes(first, given) + s.skip(i + 1),
        insert_keeps_half(*s[i], pos, *first, given),
        nothing_joined(s[i].marks(), pos, first.marks() + opt_marks(given)),
    ensures
        all_half_full(t),
{
    reveal(all_half_full);
    let xs = opt_nodes(first, given);
    assert(half_full(*s[i]));
    lemma_half_full(*s[i]);
    lemma_half_full(*first);
    assert forall|j: int| 0 <= j < t.len() implies half_full(*#[trigger] t[j]) by {
        if j < i {
            assert(half_full(*s[j]));
        } else if j >= i + xs.len() {
            assert(half_full(*s[j + 1 - xs.len()]));
        }
    }
}

/// Child `i` has no fewer entries than before, and the others are the same.
proof fn lemma_half_full_replaced(s: Seq<Box<BNode>>, t: Seq<Box<BNode>>, i: int)
    requires
        0 <= i < s.len(),
        t.len() == s.len(),
        forall|k: int| 0 <= k < s.len() && k != i ==> #[trigger] t[k] == s[k],
        (*s[i]) is Leaf == (*t[i]) is Leaf,
        t[i].fill() >= s[i].fill(),
        (*s[i]) is Leaf || s[i].fill() > 0 || t[i].fill() == 0,
        (*s[i]) is Leaf ==> t[i].fill() == s[i].fill(),
        half_full_below(*s[i]) ==> half_full_below(*t[i]),
        filled(*s[i]) ==> filled(*t[i]),
    ensures
        all_half_full(s) ==> all_half_full(t),
        all_filled(s) ==> all_filled(t),
        nearly_fed(s) ==> nearly_fed(t),
{
    if all_filled(s) {
        reveal(all_filled);
        assert(filled(*s[i]));
        assert forall|j: int| 0 <= j < t.len() implies filled(*#[trigger] t[j]) by {
            if j != i {
                assert(filled(*s[j]));
            }
        }
    }
    if all_half_full(s) {
        reveal(all_half_full);
        assert(half_full(*s[i]));
        lemma_half_full(*s[i]);
        lemma_half_full(*t[i]);
        assert forall|j: int| 0 <= j < t.len() implies half_full(*#[trigger] t[j]) by {
            if j != i {
                assert(half_full(*s[j]));
            }
        }
    }
    if nearly_fed(s) {
        reveal(nearly_fed);
        assert(s[i].fill() == 0 || s[i].fill() + 1 >= min_fill(*s[i]));
        assert forall|j: int| 0 <= j < t.len() implies (#[trigger] t[j]).fill() == 0
            || t[j].fill() + 1 >= min_fill(*t[j]) by {
            if j != i {
                assert(t[j] == s[j]);
            }
        }
    }
}

/// Puts `piece` into the document before element `pos`.
#[verifier::rlimit(60)]
fn insert_below(
    children: &mut Vec<Box<BNode>>,
    pos: usize,
    piece: Piece,
    stats: &mut Stats,
    pool: &mut NodePool,
    Ghost(h): Ghost<nat>,
)
    requires
        kids_wf(old(children)@, h),
        old(children)@.len() > 0,
        pos <= marks_all(old(children)@).len(),
        piece.sound(),
        marks_all(old(children)@).len() + (piece.end - piece.start) <= usize::MAX,
        old(pool).hollow(),
    ensures
        kids_wf(final(children)@, h),
        final(children)@.len() > 0,
        fused(
            splice(marks_all(old(children)@), pos as int, piece.marks()),
            marks_all(final(children)@),
        ),
        insert_tally(
            marks_all(old(children)@),
            pos as int,
            marks_all(final(children)@),
            size_all(final(children)@) - size_all(old(children)@),
            *old(stats),
            *final(stats),
        ),
        final(children)@.len() >= old(children)@.len(),
        all_fit(old(children)@) ==> {
            &&& all_fit(final(children)@)
            &&& final(children)@.len() <= old(children)@.len() + 1
        },
        all_fit(old(children)@) && all_roomy(
            old(children)@,
            1 + one_if(inside(marks_all(old(children)@), pos as int)),
        ) ==> size_all(final(children)@) == size_all(old(children)@) && final(children)@.len()
            == old(children)@.len(),
        all_fit(old(children)@) && all_spare(old(children)@) ==> size_all(final(children)@)
            <= size_all(old(children)@) + 1,
        nothing_joined(
            marks_all(old(children)@),
            pos as int,
            marks_all(final(children)@),
        ) ==> {
            &&& all_half_full(old(children)@) ==> all_half_full(final(children)@)
            &&& all_filled(old(children)@) ==> all_filled(final(children)@)
        },
        only_made(
            *old(pool),
            *final(pool),
            size_all(final(children)@) - size_all(old(children)@),
        ),
        final(pool).hollow(),
    decreases h, 1int,
{
    let ghost s = children@;
    let ghost m = marks_all(s);
    let ghost counts = *stats;
    let (child_idx, child_start) = child_index_and_start_for_pos(children, pos, Ghost(h));
    let ghost i = child_idx as int;
    let local_pos = pos - child_start;
    let ghost e = splice(s[i].marks(), local_pos as int, piece.marks());
    proof {
        lemma_child_before(s, i, h);
        let a = marks_all(s.take(i));
        let c = marks_all(s.skip(i + 1));
        lemma_splice_within(a, s[i].marks(), c, local_pos as int, piece.marks());
        lemma_inside_within(a, s[i].marks(), c, local_pos as int);
    }
    let split = children[child_idx].insert_at(local_pos, piece, stats, pool, Ghost(h));
    let ghost first = children@[i];
    let ghost seen = *stats;
    let ghost given = split;
    let ghost xs = opt_nodes(first, given);
    assert(children.len() == s.len());
    if let Some(right_child) = split {
        children.insert(child_idx + 1, right_child);
    }
    let ghost t = children@;
    proof {
        assert(t =~= s.take(i) + xs + s.skip(i + 1));
        lemma_opt_nodes(first, given);
        lemma_child_replaced(s, t, i, xs, e, h);
        if all_fit(s) {
            lemma_fit_at(s, i);
            lemma_fit_replaced(s, t, i, xs);
        }
        lemma_room_at(s, i, 1 + one_if(inside(m, pos as int)));
    }
    settle_children(children, stats, pool, Ghost(h));
    proof {
        let u = children@;
        lemma_fused_trans(splice(m, pos as int, piece.marks()), marks_all(t), marks_all(u));
        if nothing_joined(m, pos as int, marks_all(u)) {
            lemma_heads_fused(marks_all(t), marks_all(u));
            lemma_at_most_joined(s[i].marks(), local_pos as int, piece, marks_all(xs));
            if all_half_full(s) {
                lemma_half_full_inserted(s, t, i, local_pos as int, first, given);
            }
            if all_filled(s) {
                lemma_filled_inserted(s, t, i, local_pos as int, first, given);
            }
        }
        let bit = one_if(inside(m, pos as int));
        let made = size_all(t) - size_all(s);
        let joins = heads(m) + 1 + bit - heads(marks_all(t));
        let extra = size_all(u) - size_all(t);
        let more = heads(marks_all(t)) - heads(marks_all(u));
        lemma_tallied_trans(
            counts,
            seen,
            *stats,
            bit + made,
            joins,
            joins,
            extra,
            more,
            more,
        );
    }
}

/// The children, if there are more than one, are empty or lack at most one entry.
pub open spec fn nearly_fed_kids(n: BNode) -> bool {
    n matches BNode::Internal { children, .. } ==> {
        children@.len() > 1 ==> nearly_fed(children@)
    }
}

/// `after` is of the kind of `before`, has no fewer children, and no fewer nodes below it. If no
/// pieces were merged, and the nodes below `before` were half full, or its children nearly fed,
/// they still are. If no node below `before` was too full, then none below `after` is, it has no
/// more entries, and there are as many nodes.
pub open spec fn kept_in_bounds(before: BNode, after: BNode) -> bool {
    &&& before is Leaf == after is Leaf
    &&& before is Internal ==> after.fill() >= before.fill()
    &&& after.size() >= before.size()
    &&& heads(after.marks()) == heads(before.marks()) ==> {
        &&& before is Leaf ==> after.fill() == before.fill()
        &&& half_full_below(before) ==> half_full_below(after)
        &&& filled(before) ==> filled(after)
        &&& nearly_fed_kids(before) ==> nearly_fed_kids(after)
    }
    &&& fits_below(before) ==> {
        &&& fits_below(after)
        &&& after.fill() <= before.fill()
        &&& after.size() == before.size()
    }
}

/// The piece that ends before position `pos` is followed in `buffer` by the element at `start`.
pub open spec fn ends_at(m: Seq<Mark>, pos: int, buffer: BufferKind, start: int) -> bool {
    &&& 0 < pos <= m.len()
    &&& m[pos - 1].buffer == buffer
    &&& m[pos - 1].at + 1 == start
    &&& pos < m.len() ==> m[pos].head
}

/// `m` with the piece that ends before position `pos` grown by the elements of `buffer` from
/// `start` up to `end`.
pub open spec fn grown(
    m: Seq<Mark>,
    pos: int,
    buffer: BufferKind,
    start: int,
    end: int,
) -> Seq<Mark> {
    m.take(pos) + run(buffer, start, end, false) + m.skip(pos)
}

pub(crate) proof fn lemma_heads_grown(
    m: Seq<Mark>,
    pos: int,
    buffer: BufferKind,
    start: int,
    end: int,
)
    requires
        0 <= pos <= m.len(),
    ensures
        heads(grown(m, pos, buffer, start, end)) == heads(m),
{
    let x = run(buffer, start, end, false);
    lemma_heads_add(m.take(pos) + x, m.skip(pos));
    lemma_heads_add(m.take(pos), x);
    lemma_heads_add(m.take(pos), m.skip(pos));
    assert(m.take(pos) + m.skip(pos) =~= m);
    lemma_no_heads(x);
}

pub(crate) proof fn lemma_no_heads(x: Seq<Mark>)
    requires
        forall|k: int| 0 <= k < x.len() ==> !(#[trigger] x[k]).head,
    ensures
        heads(x) == 0,
    decreases x.len(),
{
    if x.len() > 0 {
        lemma_no_heads(x.drop_last());
    }
}

/// What growing a piece counts, where it turned `before` into `after`.
pub open spec fn grow_tally(
    before: Seq<Mark>,
    after: Seq<Mark>,
    made: int,
    s: Stats,
    t: Stats,
) -> bool {
    let joins = heads(before) - heads(after);
    tallied(s, t, made, joins, joins)
}

proof fn lemma_grown_within(
    a: Seq<Mark>,
    b: Seq<Mark>,
    c: Seq<Mark>,
    pos: int,
    buffer: BufferKind,
    start: int,
    end: int,
)
    requires
        0 < pos <= b.len(),
        opens(c),
    ensures
        grown(a + b + c, a.len() + pos, buffer, start, end) == a + grown(
            b,
            pos,
            buffer,
            start,
            end,
        ) + c,
        ends_at(a + b + c, a.len() + pos, buffer, start) == ends_at(b, pos, buffer, start),
{
    let m = a + b + c;
    let at = a.len() + pos;
    assert(m.take(at) =~= a + b.take(pos));
    assert(m.skip(at) =~= b.skip(pos) + c);
    assert(grown(m, at, buffer, start, end) =~= a + grown(b, pos, buffer, start, end) + c);
    assert(m[at - 1] == b[pos - 1]);
    if pos < b.len() {
        assert(m[at] == b[pos]);
    } else if c.len() > 0 {
        assert(m[at] == c[0]);
    }
}

/// Piece `i` grown up to `end`.
proof fn lemma_piece_grown(ps: Seq<Piece>, i: int, end: usize)
    requires
        all_sound(ps),
        0 <= i < ps.len(),
        ps[i].end < end,
    ensures
        ({
            let q = ps.update(i, Piece { end, ..ps[i] });
            let pos = marks_of(ps.take(i + 1)).len() as int;
            &&& all_sound(q)
            &&& marks_of(q) == grown(
                marks_of(ps),
                pos,
                ps[i].buffer,
                ps[i].end as int,
                end as int,
            )
        }),
{
    let p = ps[i];
    let n = Piece { end, ..p };
    let q = ps.update(i, n);
    let m = marks_of(ps);
    let pos = marks_of(ps.take(i + 1)).len() as int;
    assert(p.sound());
    assert forall|k: int| 0 <= k < q.len() implies (#[trigger] q[k]).sound() by {
        assert(ps[k].sound());
    }
    lemma_marks_at(ps, i);
    lemma_marks_at(q, i);
    assert(q.take(i) =~= ps.take(i));
    assert(q.skip(i + 1) =~= ps.skip(i + 1));
    let a = marks_of(ps.take(i));
    let c = marks_of(ps.skip(i + 1));
    let tail = run(p.buffer, p.end as int, end as int, false);
    assert(n.marks() =~= p.marks() + tail);
    assert(m.take(pos) =~= a + p.marks());
    assert(m.skip(pos) =~= c);
    assert(marks_of(q) =~= grown(m, pos, p.buffer, p.end as int, end as int));
}

/// The last element of piece `i`.
proof fn lemma_piece_end(ps: Seq<Piece>, i: int)
    requires
        all_sound(ps),
        0 <= i < ps.len(),
    ensures
        ({
            let m = marks_of(ps);
            let pos = marks_of(ps.take(i + 1)).len() as int;
            &&& 0 < pos <= m.len()
            &&& m[pos - 1].buffer == ps[i].buffer
            &&& m[pos - 1].at + 1 == ps[i].end
            &&& pos < m.len() ==> m[pos].head
        }),
{
    let m = marks_of(ps);
    assert(ps[i].sound());
    lemma_marks_at(ps, i);
    assert(all_sound(ps.skip(i + 1)));
    lemma_marks_opens(ps.skip(i + 1));
    let a = marks_of(ps.take(i));
    let pos = marks_of(ps.take(i + 1)).len() as int;
    assert(m[pos - 1] == ps[i].marks().last());
    if pos < m.len() {
        assert(m[pos] == marks_of(ps.skip(i + 1))[0]);
    }
}

/// Grows the piece of a leaf that ends before element `pos` by the run from `start` up to `end`,
/// which continues it.
fn extend_in_leaf(
    pieces: &mut Vec<Piece>,
    pos: usize,
    buffer: BufferKind,
    start: usize,
    end: usize,
    stats: &mut Stats,
)
    requires
        all_sound(old(pieces)@),
        ends_at(marks_of(old(pieces)@), pos as int, buffer, start as int),
        start < end,
        marks_of(old(pieces)@).len() + (end - start) <= usize::MAX,
    ensures
        all_sound(final(pieces)@),
        final(pieces)@.len() <= old(pieces)@.len(),
        fused(
            grown(marks_of(old(pieces)@), pos as int, buffer, start as int, end as int),
            marks_of(final(pieces)@),
        ),
        grow_tally(
            marks_of(old(pieces)@),
            marks_of(final(pieces)@),
            0,
            *old(stats),
            *final(stats),
        ),
{
    let ghost ps = pieces@;
    let ghost counts = *stats;
    let count = pieces.len();
    let mut cursor: usize = 0;
    assert(ps.take(0) =~= Seq::empty());
    for i in 0..count
        invariant
            ps == old(pieces)@,
            counts == *old(stats),
            pieces@ == ps,
            *stats == counts,
            count == ps.len(),
            all_sound(ps),
            start < end,
            ends_at(marks_of(ps), pos as int, buffer, start as int),
            cursor == marks_of(ps.take(i as int)).len(),
            cursor < pos <= marks_of(ps).len() <= usize::MAX,
    {
        let p = pieces[i];
        proof {
            assert(ps[i as int].sound());
            lemma_marks_prefix(ps, i as int);
            lemma_piece_end(ps, i as int);
            lemma_marks_at(ps, i as int);
        }
        let piece_end_pos = cursor + p.len();
        if pos <= piece_end_pos {
            proof {
                if pos < piece_end_pos {
                    let at = pos - cursor;
                    assert(marks_of(ps)[pos as int] == p.marks()[at]);
                }
                assert(pos == piece_end_pos);
            }
            pieces[i].end = end;
            let ghost q = pieces@;
            proof {
                lemma_tallied_none(counts);
                lemma_piece_grown(ps, i as int, end);
                assert(q =~= ps.update(i as int, Piece { end, ..p }));
                lemma_heads_of(ps);
                lemma_heads_of(q);
            }
            if i < count - 1 && can_coalesce(&pieces[i], &pieces[i + 1]) {
                let next_end = pieces[i + 1].end;
                pieces[i].end = next_end;
                pieces.remove(i + 1);
                stats.note_join();
                proof {
                    assert(loose(q, i as int));
                    lemma_merge_at(q, i as int);
                    assert(pieces@ =~= merge_at(q, i as int));
                    lemma_heads_of(pieces@);
                }
            }
            return ;
        }
        cursor = piece_end_pos;
    }
    assert(ps.take(ps.len() as int) =~= ps);
}

/// Grows the piece that ends before element `pos` by the run from `start` up to `end`, which
/// continues it.
#[verifier::rlimit(30)]
fn extend_below(
    children: &mut Vec<Box<BNode>>,
    pos: usize,
    buffer: BufferKind,
    start: usize,
    end: usize,
    stats: &mut Stats,
    pool: &mut NodePool,
    Ghost(h): Ghost<nat>,
)
    requires
        kids_wf(old(children)@, h),
        old(children)@.len() > 0,
        ends_at(marks_all(old(children)@), pos as int, buffer, start as int),
        start < end,
        marks_all(old(children)@).len() + (end - start) <= usize::MAX,
        old(pool).hollow(),
    ensures
        kids_wf(final(children)@, h),
        final(children)@.len() >= old(children)@.len(),
        fused(
            grown(marks_all(old(children)@), pos as int, buffer, start as int, end as int),
            marks_all(final(children)@),
        ),
        grow_tally(
            marks_all(old(children)@),
            marks_all(final(children)@),
            size_all(final(children)@) - size_all(old(children)@),
            *old(stats),
            *final(stats),
        ),
        all_fit(old(children)@) ==> {
            &&& all_fit(final(children)@)
            &&& final(children)@.len() == old(children)@.len()
            &&& size_all(final(children)@) == size_all(old(children)@)
        },
        size_all(final(children)@) >= size_all(old(children)@),
        heads(marks_all(final(children)@)) == heads(marks_all(old(children)@)) ==> {
            &&& all_half_full(old(children)@) ==> all_half_full(final(children)@)
            &&& all_filled(old(children)@) ==> all_filled(final(children)@)
            &&& final(children)@.len() > 1 && (old(children)@.len() > 1 ==> nearly_fed(
                old(children)@,
            )) ==> nearly_fed(final(children)@)
        },
        only_made(
            *old(pool),
            *final(pool),
            size_all(final(children)@) - size_all(old(children)@),
        ),
        final(pool).hollow(),
    decreases h, 1int,
{
    let ghost s = children@;
    let ghost m = marks_all(s);
    let ghost counts = *stats;
    let (idx, child_start) = child_index_and_start_for_pos(children, pos - 1, Ghost(h));
    let ghost i = idx as int;
    let local_pos = pos - child_start;
    let ghost e = grown(s[i].marks(), local_pos as int, buffer, start as int, end as int);
    proof {
        lemma_child_before(s, i, h);
        let a = marks_all(s.take(i));
        let c = marks_all(s.skip(i + 1));
        lemma_grown_within(
            a,
            s[i].marks(),
            c,
            local_pos as int,
            buffer,
            start as int,
            end as int,
        );
    }
    children[idx].extend_at(local_pos, buffer, start, end, stats, pool, Ghost(h));
    let ghost t = children@;
    let ghost seen = *stats;
    proof {
        let xs = seq![t[i]];
        lemma_all_one(t[i]);
        assert(t =~= s.take(i) + xs + s.skip(i + 1));
        assert(kids_wf(xs, h));
        lemma_child_replaced(s, t, i, xs, e, h);
        if all_fit(s) {
            lemma_fit_at(s, i);
            lemma_fits(*t[i]);
            lemma_fit_replaced(s, t, i, xs);
        }
    }
    settle_children(children, stats, pool, Ghost(h));
    proof {
        let u = children@;
        lemma_fused_trans(
            grown(m, pos as int, buffer, start as int, end as int),
            marks_all(t),
            marks_all(u),
        );
        if heads(marks_all(u)) == heads(m) {
            lemma_heads_fused(marks_all(t), marks_all(u));
            lemma_heads_fused(e, t[i].marks());
            lemma_heads_grown(
                s[i].marks(),
                local_pos as int,
                buffer,
                start as int,
                end as int,
            );
            lemma_half_full_replaced(s, t, i);
        }
        let made = size_all(t) - size_all(s);
        let joins = heads(m) - heads(marks_all(t));
        let extra = size_all(u) - size_all(t);
        let more = heads(marks_all(t)) - heads(marks_all(u));
        lemma_tallied_trans(
            counts,
            seen,
            *stats,
            made,
            joins,
            joins,
            extra,
            more,
            more,
        );
    }
}

/// The piece in which the element before position `pos` lies, and whether that is its last.
proof fn lemma_ends_at(
    m: Seq<Mark>,
    pos: int,
    p: Piece,
    offset: int,
    buffer: BufferKind,
    start: int,
)
    requires
        0 < pos <= m.len(),
        0 <= offset < p.end - p.start,
        lies_at(m, p, pos - 1 - offset),
    ensures
        ends_at(m, pos, buffer, start) == (p.buffer == buffer && p.end == start && offset + 1
            == p.end - p.start),
{
    let from = pos - 1 - offset;
    let n = p.end - p.start;
    assert(m[pos - 1] == m.subrange(from, from + n)[offset]);
    if offset + 1 < n {
        assert(m[pos] == m.subrange(from, from + n)[offset + 1]);
    } else if pos < m.len() {
        assert(m[pos] == m.skip(from + n)[0]);
    }
}

impl BNode {
    /// Grows the piece that ends before element `pos` by the elements of `buffer` from `start` up
    /// to `end`, which continue it.
    fn extend_at(
        &mut self,
        pos: usize,
        buffer: BufferKind,
        start: usize,
        end: usize,
        stats: &mut Stats,
        pool: &mut NodePool,
        Ghost(h): Ghost<nat>,
    )
        requires
            old(self).wf(h),
            ends_at(old(self).marks(), pos as int, buffer, start as int),
            start < end,
            old(self).span() + (end - start) <= usize::MAX,
            old(pool).hollow(),
        ensures
            final(self).wf(h),
            fused(
                grown(old(self).marks(), pos as int, buffer, start as int, end as int),
                final(self).marks(),
            ),
            grow_tally(
                old(self).marks(),
                final(self).marks(),
                final(self).size() - old(self).size(),
                *old(stats),
                *final(stats),
            ),
            kept_in_bounds(*old(self), *final(self)),
            only_made(*old(pool), *final(pool), final(self).size() - old(self).size()),
            final(pool).hollow(),
        decreases h, 0int,
    {
        proof {
            lemma_filled(*self);
        }
        match self {
            BNode::Leaf { pieces, .. } => {
                let ghost ps = pieces@;
                extend_in_leaf(pieces, pos, buffer, start, end, stats);
                proof {
                    lemma_heads_of(ps);
                    lemma_heads_of(pieces@);
                }
            },
            BNode::Internal { children, .. } => {
                extend_below(
                    children,
                    pos,
                    buffer,
                    start,
                    end,
                    stats,
                    pool,
                    Ghost((h - 1) as nat),
                );
            },
        }
        self.update_len(Ghost(h));
        proof {
            lemma_filled(*self);
        }
    }

    /// Grows the piece that ends before element `pos` by the elements of `buffer` from `start` up
    /// to `end`, if they continue it.
    pub(crate) fn try_extend_at_pos(
        &mut self,
        pos: usize,
        buffer: BufferKind,
        start: usize,
        end: usize,
        stats: &mut Stats,
        pool: &mut NodePool,
        Ghost(h): Ghost<nat>,
    ) -> (did: bool)
        requires
            old(self).wf(h),
            0 < pos <= old(self).span(),
            start < end,
            old(self).span() + (end - start) <= usize::MAX,
            old(pool).hollow(),
        ensures
            did == ends_at(old(self).marks(), pos as int, buffer, start as int),
            final(self).wf(h),
            did ==> {
                &&& fused(
                    grown(old(self).marks(), pos as int, buffer, start as int, end as int),
                    final(self).marks(),
                )
                &&& grow_tally(
                    old(self).marks(),
                    final(self).marks(),
                    final(self).size() - old(self).size(),
                    *old(stats),
                    *final(stats),
                )
                &&& kept_in_bounds(*old(self), *final(self))
                &&& only_made(*old(pool), *final(pool), final(self).size() - old(self).size())
            },
            !did ==> {
                &&& *final(self) == *old(self)
                &&& *final(stats) == *old(stats)
                &&& *final(pool) == *old(pool)
            },
            final(pool).hollow(),
    {
        let (piece, offset, _) = self.find(pos - 1, 0, Ghost(h));
        proof {
            lemma_ends_at(
                self.marks(),
                pos as int,
                *piece,
                offset as int,
                buffer,
                start as int,
            );
        }
        if piece.buffer != buffer || piece.end != start || offset + 1 != piece.len() {
            return false;
        }
        self.extend_at(pos, buffer, start, end, stats, pool, Ghost(h));
        true
    }

    /// Grows the piece that ends before element `pos` by the elements of the add buffer from
    /// `append_start` up to `append_end`, if they continue it.
    pub(crate) fn try_extend_add_at_pos(
        &mut self,
        pos: usize,
        append_start: usize,
        append_end: usize,
        stats: &mut Stats,
        pool: &mut NodePool,
        Ghost(h): Ghost<nat>,
    ) -> (did: bool)
        requires
            old(self).wf(h),
            0 < pos <= old(self).span(),
            append_start < append_end,
            old(self).span() + (append_end - append_start) <= usize::MAX,
            old(pool).hollow(),
        ensures
            did == ends_at(old(self).marks(), pos as int, BufferKind::Add, append_start as int),
            final(self).wf(h),
            did ==> {
                &&& fused(
                    grown(
                        old(self).marks(),
                        pos as int,
                        BufferKind::Add,
                        append_start as int,
                        append_end as int,
                    ),
                    final(self).marks(),
                )
                &&& grow_tally(
                    old(self).marks(),
                    final(self).marks(),
                    final(self).size() - old(self).size(),
                    *old(stats),
                    *final(stats),
                )
                &&& kept_in_bounds(*old(self), *final(self))
                &&& only_made(*old(pool), *final(pool), final(self).size() - old(self).size())
            },
            !did ==> {
                &&& *final(self) == *old(self)
                &&& *final(stats) == *old(stats)
                &&& *final(pool) == *old(pool)
            },
            final(pool).hollow(),
    {
        self.try_extend_at_pos(
            pos,
            BufferKind::Add,
            append_start,
            append_end,
            stats,
            pool,
            Ghost(h),
        )
    }
}

/// A leaf into which a piece was put has at most two pieces more.
proof fn lemma_leaf_grew(ps: Seq<Piece>, pos: int, piece: Piece, qs: Seq<Piece>)
    requires
        all_sound(ps),
        all_sound(qs),
        piece.sound(),
        0 <= pos <= marks_of(ps).len(),
        fused(splice(marks_of(ps), pos, piece.marks()), marks_of(qs)),
    ensures
        qs.len() <= ps.len() + 1 + one_if(inside(marks_of(ps), pos)),
{
    let m = marks_of(ps);
    let one = seq![piece];
    lemma_heads_of(ps);
    lemma_heads_of(qs);
    lemma_heads_of(one);
    lemma_marks_one(piece);
    lemma_marks_opens(ps);
    lemma_heads_splice(m, pos, piece.marks());
    lemma_heads_fused(splice(m, pos, piece.marks()), marks_of(qs));
}

impl BNode {
    /// Puts `piece` into the document before element `pos`. Gives the node that is to follow this
    /// one, if it was split.
    pub(crate) fn insert_at(
        &mut self,
        pos: usize,
        piece: Piece,
        stats: &mut Stats,
        pool: &mut NodePool,
        Ghost(h): Ghost<nat>,
    ) -> (r: Option<Box<BNode>>)
        requires
            old(self).wf(h),
            pos <= old(self).span(),
            piece.sound(),
            old(self).span() + (piece.end - piece.start) <= usize::MAX,
            old(pool).hollow(),
        ensures
            final(self).wf(h),
            r matches Some(n) ==> n.wf(h),
            fused(
                splice(old(self).marks(), pos as int, piece.marks()),
                final(self).marks() + opt_marks(r),
            ),
            insert_tally(
                old(self).marks(),
                pos as int,
                final(self).marks() + opt_marks(r),
                final(self).size() + opt_size(r) - old(self).size(),
                *old(stats),
                *final(stats),
            ),
            fits_below(*old(self)) && old(self).fill() + 2 <= 2 * max_fill(*old(self)) ==> {
                &&& fits(*final(self))
                &&& r matches Some(n) ==> fits(*n)
            },
            fits(*old(self)) && roomy(
                *old(self),
                1 + one_if(inside(old(self).marks(), pos as int)),
            ) ==> r is None && final(self).size() == old(self).size(),
            fits(*old(self)) && spare(*old(self)) ==> {
                &&& final(self).size() + opt_size(r) <= old(self).size() + 1
                &&& (*old(self)) is Internal ==> r is None
            },
            insert_keeps_half(*old(self), pos as int, *final(self), r),
            insert_keeps_filled(*old(self), pos as int, *final(self), r),
            r is None && (*old(self)) is Internal ==> {
                &&& (*final(self)) is Internal
                &&& final(self).fill() >= old(self).fill()
            },
            only_made(
                *old(pool),
                *final(pool),
                final(self).size() + opt_size(r) - old(self).size(),
            ),
            final(pool).hollow(),
        decreases h, 0int,
    {
        let ghost m = self.marks();
        let ghost nodes = self.size();
        let ghost counts = *stats;
        let ghost this = *self;
        let ghost room = 1 + one_if(inside(m, pos as int));
        proof {
            lemma_fits(this);
            lemma_room(this, room);
            lemma_filled(this);
        }
        match self {
            BNode::Leaf { pieces, .. } => {
                let ghost ps = pieces@;
                leaf_insert_piece(pieces, pos, piece, stats);
                proof {
                    lemma_heads_of(ps);
                    lemma_heads_of(pieces@);
                    lemma_leaf_grew(ps, pos as int, piece, pieces@);
                }
            },
            BNode::Internal { children, .. } => {
                insert_below(children, pos, piece, stats, pool, Ghost((h - 1) as nat));
            },
        }
        let ghost whole = self.marks();
        let ghost full = *self;
        assert(insert_tally(m, pos as int, whole, self.size() - nodes, counts, *stats));
        proof {
            lemma_fits(*self);
        }
        proof {
            lemma_room(full, 0);
            lemma_filled(full);
        }
        assert(filled(this) && nothing_joined(m, pos as int, whole) ==> filled(full)) by {
            if let BNode::Leaf { pieces, .. } = full {
                assert(whole.len() > 0);
            }
        }
        assert(fits(this) && roomy(this, room) ==> full.fill() <= max_fill(full) && full.size()
            == nodes);
        assert(fits(this) && spare(this) ==> full.size() <= nodes + one_if(this is Internal));
        assert(fits(this) && spare(this) && this is Internal ==> full.fill() <= max_fill(full));
        if is_overfull(self) {
            let ghost seen = *stats;
            stats.note_split();
            let right = split_half(self, pool, Ghost(h));
            proof {
                let bit = one_if(inside(m, pos as int));
                let joins = heads(m) + 1 + bit - heads(whole);
                let made = self.size() + right.size() - 1 - nodes;
                lemma_tallied_trans(counts, seen, *stats, bit + made, joins, joins, 1, 0, 0);
                if fits_below(full) {
                    lemma_fits_halved(full, *self, *right);
                }
                lemma_fits(*self);
                lemma_fits(*right);
                if half_full_below(full) {
                    lemma_half_full_halved(full, *self, *right);
                }
                if filled(full) {
                    lemma_filled_halved(full, *self, *right);
                }
            }
            Some(right)
        } else {
            self.update_len(Ghost(h));
            proof {
                lemma_filled(*self);
            }
            assert(self.marks() + opt_marks(None) =~= whole);
            None
        }
    }
}

/// What a deletion that cut `cuts` pieces and merged `joins` pieces counts, while the store of
/// nodes went from `p` to `q`: the pieces that were cut and the nodes that were made are splits,
/// the pieces and the nodes that were merged are merges.
pub open spec fn deletion_counts(
    s: Stats,
    t: Stats,
    cuts: int,
    joins: int,
    p: NodePool,
    q: NodePool,
) -> bool {
    tallied(s, t, cuts + (q.made() - p.made()), joins + (q.merged() - p.merged()), joins)
}

/// What taking `len` elements out of the document `before` counts, where it left `after`.
pub open spec fn delete_tally(
    before: Seq<Mark>,
    pos: int,
    len: int,
    after: Seq<Mark>,
    p: NodePool,
    q: NodePool,
    s: Stats,
    t: Stats,
) -> bool {
    let cuts = one_if(inside(before, pos)) + one_if(inside(before, pos + len));
    let joins = heads(cut(before, pos, len)) - heads(after);
    deletion_counts(s, t, cuts, joins, p, q)
}

/// How many pieces were merged while `m` became `cur` by losing `done` elements.
spec fn joins_so_far(m: Seq<Mark>, pos: int, done: int, cur: Seq<Mark>) -> int {
    if done == 0 {
        0
    } else {
        heads(cut(m, pos, done)) - heads(cur)
    }
}

/// A deletion followed by one more, of the elements that then stand at the same place.
///
/// `m` is the document at first, `cur` what is left of it once `done` elements are gone, and
/// `next` what is left once `chunk` more are gone.
proof fn lemma_delete_step(
    m: Seq<Mark>,
    pos: int,
    done: int,
    chunk: int,
    cur: Seq<Mark>,
    next: Seq<Mark>,
)
    requires
        0 <= pos,
        0 <= done,
        0 < chunk,
        pos + done + chunk <= m.len(),
        fused(cut(m, pos, done), cur),
        cur.skip(pos) == m.skip(pos + done),
        done > 0 ==> opens(m.skip(pos + done)),
        done == 0 ==> cur == m,
        fused(cut(cur, pos, chunk), next),
    ensures
        fused(cut(m, pos, done + chunk), next),
        heads(cut(m, pos, done + chunk)) - heads(next) == joins_so_far(m, pos, done, cur) + (heads(
            cut(cur, pos, chunk),
        ) - heads(next)),
        inside(cur, pos) == (done == 0 && inside(m, pos)),
        inside(cur, pos + chunk) == inside(m, pos + done + chunk),
{
    let c = cut(m, pos, done);
    lemma_fused_cut(c, cur, pos, chunk);
    lemma_cut_cut(m, pos, done, chunk);
    lemma_fused_trans(cut(m, pos, done + chunk), cut(cur, pos, chunk), next);
    let t = m.skip(pos + done);
    let z = headed(m.skip(pos + done + chunk));
    assert(cur.skip(pos + chunk) =~= m.skip(pos + done + chunk)) by {
        assert(cur.skip(pos + chunk) =~= cur.skip(pos).skip(chunk));
        assert(m.skip(pos + done + chunk) =~= m.skip(pos + done).skip(chunk));
    }
    assert(cur =~= cur.take(pos) + t);
    lemma_heads_add(m.take(pos), z);
    lemma_heads_add(cur.take(pos), z);
    lemma_heads_add(cur.take(pos), t);
    if done > 0 {
        assert(headed(t) =~= t);
        lemma_heads_add(m.take(pos), t);
    }
    if pos < cur.len() {
        assert(cur[pos] == t[0]);
    }
    if pos + chunk < cur.len() {
        assert(cur[pos + chunk] == cur.skip(pos)[chunk]);
        assert(m[pos + done + chunk] == t[chunk]);
    }
}

/// How many pieces were cut while `done` elements were taken out of `m`.
spec fn cuts_so_far(m: Seq<Mark>, pos: int, done: int) -> int {
    if done == 0 {
        0
    } else {
        one_if(inside(m, pos)) + one_if(inside(m, pos + done))
    }
}

/// While `done` elements were taken out of `m`, which the nodes `s` hold, and the nodes `t` were
/// left, no node was merged, and all are half full if they were, unless there are fewer pieces.
#[verifier::opaque]
spec fn kept_so_far(
    m: Seq<Mark>,
    pos: int,
    done: int,
    s: Seq<Box<BNode>>,
    t: Seq<Box<BNode>>,
    p: NodePool,
    q: NodePool,
) -> bool {
    let cur = marks_all(t);
    all_half_full(s) && joins_so_far(m, pos, done, cur) == 0 && heads(cur) >= heads(m) ==> {
        &&& all_half_full(t)
        &&& t.len() == s.len()
        &&& q.merged() == p.merged()
    }
}

proof fn lemma_kept_on(
    m: Seq<Mark>,
    pos: int,
    done: int,
    chunk: int,
    s: Seq<Box<BNode>>,
    t: Seq<Box<BNode>>,
    u: Seq<Box<BNode>>,
    p: NodePool,
    q: NodePool,
    r: NodePool,
)
    requires
        0 <= pos,
        0 <= done,
        0 < chunk,
        pos + done + chunk <= m.len(),
        opens(m),
        opens(marks_all(t)),
        fused(cut(m, pos, done), marks_all(t)),
        marks_all(t).skip(pos) == m.skip(pos + done),
        done > 0 ==> opens(m.skip(pos + done)),
        done == 0 ==> marks_all(t) == m,
        fused(cut(marks_all(t), pos, chunk), marks_all(u)),
        kept_so_far(m, pos, done, s, t, p, q),
        all_half_full(t) && pieces_kept(marks_all(t), pos, chunk, marks_all(u)) ==> {
            &&& all_half_full(u)
            &&& u.len() == t.len()
            &&& r.merged() == q.merged()
        },
        done > 0 ==> heads(marks_all(t)) <= heads(m),
        done > 0 ==> !inside(marks_all(t), pos),
    ensures
        kept_so_far(m, pos, done + chunk, s, u, p, r),
        !(inside(marks_all(t), pos) && inside(marks_all(t), pos + chunk)) ==> heads(marks_all(u))
            <= heads(m),
{
    reveal(kept_so_far);
    let cur = marks_all(t);
    let next = marks_all(u);
    lemma_delete_step(m, pos, done, chunk, cur, next);
    lemma_heads_fused(cut(cur, pos, chunk), next);
    lemma_heads_fused(cut(m, pos, done), cur);
    lemma_heads_cut(cur, pos, chunk);
}

/// A deletion of `len` elements, of which `done` are gone: `cur` is what is left of `m`.
spec fn deleting(
    m: Seq<Mark>,
    pos: int,
    len: int,
    done: int,
    cur: Seq<Mark>,
    p: NodePool,
    q: NodePool,
    s: Stats,
    t: Stats,
) -> bool {
    &&& fused(cut(m, pos, done), cur)
    &&& 0 < done < len ==> opens(m.skip(pos + done))
    &&& done < len ==> cur.skip(pos) == m.skip(pos + done)
    &&& done == 0 ==> cur == m
    &&& deletion_counts(
        s,
        t,
        cuts_so_far(m, pos, done),
        joins_so_far(m, pos, done, cur),
        p,
        q,
    )
}

proof fn lemma_deletion_begins(m: Seq<Mark>, pos: int, len: int, p: NodePool, s: Stats)
    requires
        0 <= pos,
        0 < len,
        pos + len <= m.len(),
    ensures
        deleting(m, pos, len, 0, m, p, p, s, s),
{
    lemma_tallied_none(s);
    assert(fused(cut(m, pos, 0), m));
}

proof fn lemma_deletion_goes_on(
    m: Seq<Mark>,
    pos: int,
    len: int,
    done: int,
    chunk: int,
    cur: Seq<Mark>,
    next: Seq<Mark>,
    p: NodePool,
    q: NodePool,
    r: NodePool,
    s: Stats,
    t: Stats,
    u: Stats,
)
    requires
        0 <= pos,
        0 <= done,
        0 < chunk,
        done + chunk <= len,
        pos + len <= m.len(),
        deleting(m, pos, len, done, cur, p, q, s, t),
        fused(cut(cur, pos, chunk), next),
        delete_tally(cur, pos, chunk, next, q, r, t, u),
        done + chunk < len ==> next.skip(pos) == cur.skip(pos + chunk) && opens(
            cur.skip(pos + chunk),
        ),
    ensures
        deleting(m, pos, len, done + chunk, next, p, r, s, u),
        inside(cur, pos) == (done == 0 && inside(m, pos)),
        inside(cur, pos + chunk) == inside(m, pos + done + chunk),
        done + chunk < len ==> !inside(cur, pos + chunk),
{
    lemma_delete_step(m, pos, done, chunk, cur, next);
    assert(m.skip(pos + done).skip(chunk) =~= m.skip(pos + done + chunk));
    assert(cur.skip(pos).skip(chunk) =~= cur.skip(pos + chunk));
    if done > 0 {
        assert(m[pos + done] == m.skip(pos + done)[0]);
    }
    if done + chunk < len && pos + chunk < cur.len() {
        assert(cur[pos + chunk] == cur.skip(pos + chunk)[0]);
    }
    let cuts = cuts_so_far(m, pos, done);
    let joins = joins_so_far(m, pos, done, cur);
    let more_cuts = one_if(inside(cur, pos)) + one_if(inside(cur, pos + chunk));
    let more_joins = heads(cut(cur, pos, chunk)) - heads(next);
    lemma_tallied_trans(
        s,
        t,
        u,
        cuts + (q.made() - p.made()),
        joins + (q.merged() - p.merged()),
        joins,
        more_cuts + (r.made() - q.made()),
        more_joins + (r.merged() - q.merged()),
        more_joins,
    );
    assert(cuts_so_far(m, pos, done + chunk) == cuts + more_cuts);
    assert(joins_so_far(m, pos, done + chunk, next) == joins + more_joins);
}

/// More pieces and nodes merged, and more nodes made, after a deletion.
proof fn lemma_delete_tally_more(
    m: Seq<Mark>,
    pos: int,
    len: int,
    cur: Seq<Mark>,
    next: Seq<Mark>,
    p: NodePool,
    q: NodePool,
    r: NodePool,
    s: Stats,
    t: Stats,
    u: Stats,
)
    requires
        0 < len,
        deleting(m, pos, len, len, cur, p, q, s, t),
        deletion_counts(t, u, 0, heads(cur) - heads(next), q, r),
    ensures
        delete_tally(m, pos, len, next, p, r, s, u),
{
    let cuts = cuts_so_far(m, pos, len);
    let joins = joins_so_far(m, pos, len, cur);
    let more = heads(cur) - heads(next);
    lemma_tallied_trans(
        s,
        t,
        u,
        cuts + (q.made() - p.made()),
        joins + (q.merged() - p.merged()),
        joins,
        0int + (r.made() - q.made()),
        more + (r.merged() - q.merged()),
        more,
    );
}

/// What is known of the siblings after `len` elements were taken out of child `i`.
proof fn lemma_child_cut(
    s: Seq<Box<BNode>>,
    t: Seq<Box<BNode>>,
    i: int,
    h: nat,
    pos: int,
    len: int,
)
    requires
        0 <= i < s.len(),
        kids_wf(s, h),
        0 <= pos,
        0 <= len,
        pos + len <= s[i].marks().len(),
        t.len() == s.len(),
        forall|k: int| 0 <= k < s.len() && k != i ==> #[trigger] t[k] == s[k],
        t[i].wf(h) || (t[i].marks().len() == 0),
        fused(cut(s[i].marks(), pos, len), t[i].marks()),
    ensures
        ({
            let at = marks_all(s.take(i)).len() + pos;
            &&& fused(cut(marks_all(s), at, len), marks_all(t))
            &&& heads(cut(marks_all(s), at, len)) - heads(marks_all(t)) == heads(
                cut(s[i].marks(), pos, len),
            ) - heads(t[i].marks())
            &&& size_all(t) - size_all(s) == t[i].size() - s[i].size()
            &&& heads(marks_all(t)) - heads(marks_all(s)) == heads(t[i].marks()) - heads(
                s[i].marks(),
            )
            &&& inside(marks_all(s), at) == inside(s[i].marks(), pos)
            &&& inside(marks_all(s), at + len) == inside(s[i].marks(), pos + len)
            &&& pos + len == s[i].marks().len() ==> marks_all(t).skip(at) == marks_all(
                s.skip(i + 1),
            ) && marks_all(s).skip(at + len) == marks_all(s.skip(i + 1)) && opens(
                marks_all(s.skip(i + 1)),
            )
            &&& t[i].wf(h) ==> kids_wf(t, h)
            &&& t[i].marks().len() == 0 ==> {
                &&& kids_wf(t.remove(i), h)
                &&& marks_all(t.remove(i)) == marks_all(t)
                &&& size_all(t.remove(i)) + t[i].size() == size_all(t)
            }
        }),
{
    let a = marks_all(s.take(i));
    let b = s[i].marks();
    let c = marks_all(s.skip(i + 1));
    let e = cut(b, pos, len);
    let d = t[i].marks();
    lemma_child_before(s, i, h);
    lemma_cut_within(a, b, c, pos, len);
    lemma_inside_within(a, b, c, pos);
    lemma_inside_within(a, b, c, pos + len);
    assert(t =~= s.update(i, t[i]));
    lemma_all_update(s, i, t[i]);
    lemma_all_at(s, i);
    lemma_fused_add(a, a, e, d);
    lemma_fused_add(a + e, a + d, c, c);
    lemma_heads_add(a + e, c);
    lemma_heads_add(a, e);
    lemma_heads_add(a + d, c);
    lemma_heads_add(a, d);
    lemma_heads_add(a + b, c);
    lemma_heads_add(a, b);
    if pos + len == b.len() {
        assert(marks_all(t).skip(a.len() + pos) =~= c);
        assert(marks_all(s).skip(a.len() + pos + len) =~= c);
    }
    if t[i].wf(h) {
        assert forall|k: int| 0 <= k < t.len() implies (#[trigger] t[k]).wf(h) by {
            if k != i {
                assert(s[k].wf(h));
            }
        }
    }
    if d.len() == 0 {
        let u = t.remove(i);
        lemma_all_remove(t, i);
        assert(t.take(i) =~= s.take(i));
        assert(t.skip(i + 1) =~= s.skip(i + 1));
        assert(a + d + c =~= a + c);
        assert forall|k: int| 0 <= k < u.len() implies (#[trigger] u[k]).wf(h) by {
            if k < i {
                assert(s[k].wf(h));
            } else {
                assert(s[k + 1].wf(h));
            }
        }
    }
}

/// How full the nodes are after an edit of child `i` that leaves nothing too full but perhaps that
/// child.
proof fn lemma_fit_but_one(s: Seq<Box<BNode>>, t: Seq<Box<BNode>>, i: int)
    requires
        0 <= i < s.len(),
        t.len() == s.len(),
        forall|k: int| 0 <= k < s.len() && k != i ==> #[trigger] t[k] == s[k],
        all_fit(s),
        fits_below(*t[i]),
        t[i].fill() <= 2 * max_fill(*t[i]),
    ensures
        all_half_fit(t),
        overfull_in(t) <= 1,
        t[i].fill() <= max_fill(*t[i]) ==> all_fit(t),
        all_fit(t.remove(i)),
{
    reveal(all_fit);
    lemma_fits(*t[i]);
    let u = t.remove(i);
    assert forall|k: int| 0 <= k < u.len() implies fits(*#[trigger] u[k]) by {
        if k < i {
            assert(fits(*s[k]));
        } else {
            assert(fits(*s[k + 1]));
        }
    }
    assert(u =~= t.take(i) + t.skip(i + 1));
    lemma_all_fit(u);
    lemma_overfull_at(t, i);
    reveal(all_half_fit);
    assert forall|k: int| 0 <= k < t.len() implies fits_below(*#[trigger] t[k]) && t[k].fill() <= 2
        * max_fill(*t[k]) by {
        if k != i {
            assert(fits(*s[k]));
            lemma_fits(*s[k]);
        }
    }
    if t[i].fill() <= max_fill(*t[i]) {
        assert forall|k: int| 0 <= k < t.len() implies fits(*#[trigger] t[k]) by {
            if k != i {
                assert(fits(*s[k]));
            }
        }
    }
}

/// Taking `len` elements from position `pos` on out of `before` left `after`, in which no pieces
/// were merged, and no fewer than there were.
pub open spec fn pieces_kept(before: Seq<Mark>, pos: int, len: int, after: Seq<Mark>) -> bool {
    &&& heads(after) == heads(cut(before, pos, len))
    &&& heads(after) >= heads(before)
}

/// Some piece begins in a document that is not empty.
proof fn lemma_some_head(m: Seq<Mark>)
    requires
        opens(m),
        m.len() > 0,
    ensures
        heads(m) > 0,
    decreases m.len(),
{
    if m.len() > 1 {
        assert(m.drop_last()[0] == m[0]);
        lemma_some_head(m.drop_last());
    }
}

/// The nodes are as full as they were once `len` elements are taken out of child `i`, if it has
/// no fewer entries.
proof fn lemma_half_full_cut(s: Seq<Box<BNode>>, t: Seq<Box<BNode>>, i: int)
    requires
        0 <= i < s.len(),
        t.len() == s.len(),
        forall|k: int| 0 <= k < s.len() && k != i ==> #[trigger] t[k] == s[k],
        (*s[i]) is Leaf == (*t[i]) is Leaf,
        all_half_full(s),
    ensures
        half_full_below(*s[i]),
        half_full_below(*t[i]) && t[i].fill() >= s[i].fill() ==> all_half_full(t),
{
    reveal(all_half_full);
    assert(half_full(*s[i]));
    lemma_half_full(*s[i]);
    if half_full_below(*t[i]) && t[i].fill() >= s[i].fill() {
        lemma_half_full(*t[i]);
        assert forall|k: int| 0 <= k < t.len() implies half_full(*#[trigger] t[k]) by {
            if k != i {
                assert(half_full(*s[k]));
            }
        }
    }
}

/// Which leaves have a piece after an edit of child `i`.
proof fn lemma_filled_but_one(s: Seq<Box<BNode>>, t: Seq<Box<BNode>>, i: int)
    requires
        0 <= i < s.len(),
        t.len() == s.len(),
        forall|k: int| 0 <= k < s.len() && k != i ==> #[trigger] t[k] == s[k],
        all_filled(s),
    ensures
        filled(*s[i]),
        filled(*t[i]) ==> all_filled(t),
        all_filled(t.remove(i)),
{
    reveal(all_filled);
    let u = t.remove(i);
    assert forall|k: int| 0 <= k < u.len() implies filled(*#[trigger] u[k]) by {
        if k < i {
            assert(filled(*s[k]));
        } else {
            assert(filled(*s[k + 1]));
        }
    }
    if filled(*t[i]) {
        assert forall|k: int| 0 <= k < t.len() implies filled(*#[trigger] t[k]) by {
            if k != i {
                assert(filled(*s[k]));
            }
        }
    }
}

/// Taking `len` elements from position `pos` on out of `m` leaves no leaf with more pieces than it
/// may have: they do not lie inside of one piece, or there is room for one more.
pub open spec fn calm(m: Seq<Mark>, pos: int, len: int, room: bool) -> bool {
    !(inside(m, pos) && inside(m, pos + len)) || room
}

/// Takes elements from element `pos` on out of the child in which that lies: `remaining` of them,
/// or as many as there are. Gives how many it was.
fn delete_chunk(
    children: &mut Vec<Box<BNode>>,
    pos: usize,
    remaining: usize,
    stats: &mut Stats,
    pool: &mut NodePool,
    Ghost(h): Ghost<nat>,
) -> (chunk: usize)
    requires
        kids_wf(old(children)@, h),
        0 < remaining,
        pos + remaining <= marks_all(old(children)@).len() <= usize::MAX,
        old(pool).hollow(),
    ensures
        0 < chunk <= remaining,
        kids_wf(final(children)@, h),
        fused(
            cut(marks_all(old(children)@), pos as int, chunk as int),
            marks_all(final(children)@),
        ),
        delete_tally(
            marks_all(old(children)@),
            pos as int,
            chunk as int,
            marks_all(final(children)@),
            *old(pool),
            *final(pool),
            *old(stats),
            *final(stats),
        ),
        books_kept(
            *old(pool),
            *final(pool),
            size_all(old(children)@) as int,
            size_all(final(children)@) as int,
        ),
        chunk < remaining ==> {
            &&& marks_all(final(children)@).skip(pos as int) == marks_all(old(children)@).skip(
                pos + chunk,
            )
            &&& opens(marks_all(old(children)@).skip(pos + chunk))
        },
        final(children)@.len() <= old(children)@.len(),
        all_filled(old(children)@) ==> all_filled(final(children)@),
        all_half_full(old(children)@) && pieces_kept(
            marks_all(old(children)@),
            pos as int,
            chunk as int,
            marks_all(final(children)@),
        ) ==> {
            &&& all_half_full(final(children)@)
            &&& final(children)@.len() == old(children)@.len()
            &&& final(pool).merged() == old(pool).merged()
        },
        all_fit(old(children)@) ==> {
            &&& all_half_fit(final(children)@)
            &&& overfull_in(final(children)@) <= 1
            &&& !(inside(marks_all(old(children)@), pos as int) && inside(
                marks_all(old(children)@),
                pos + chunk,
            )) ==> all_fit(final(children)@)
            &&& calm(
                marks_all(old(children)@),
                pos as int,
                chunk as int,
                all_roomy(old(children)@, 1),
            ) ==> all_fit(final(children)@) && final(pool).made() == old(pool).made()
        },
        final(pool).hollow(),
    decreases h, 1int,
{
    let ghost t = children@;
    let ghost counts = *stats;
    assert(children@.len() > 0);
    let (idx, child_start) = child_index_and_start_for_pos(children, pos, Ghost(h));
    let ghost i = idx as int;
    let local_pos = pos - child_start;
    let child_available = children[idx].len() - local_pos;
    let chunk = if remaining < child_available {
        remaining
    } else {
        child_available
    };
    proof {
        lemma_child_before(t, i, h);
    }
    children[idx].delete_range(local_pos, chunk, stats, pool, Ghost(h));
    let ghost u = children@;
    proof {
        lemma_child_cut(t, u, i, h, local_pos as int, chunk as int);
        if all_filled(t) {
            lemma_filled_but_one(t, u, i);
        }
        if all_half_full(t) {
            lemma_half_full_cut(t, u, i);
        }
        lemma_some_head(t[i].marks());
        if all_fit(t) {
            lemma_fit_at(t, i);
            lemma_fit_but_one(t, u, i);
            lemma_room_at(t, i, 1);
            lemma_fits(*u[i]);
            if all_fit(u.remove(i)) {
                lemma_all_fit(u.remove(i));
            }
        }
    }
    if children[idx].len() == 0 {
        let removed = children.remove(idx);
        pool.recycle(removed);
    }
    chunk
}

/// Takes `len` elements from element `pos` on out of the document.
#[verifier::rlimit(40)]
fn delete_below(
    children: &mut Vec<Box<BNode>>,
    pos: usize,
    len: usize,
    stats: &mut Stats,
    pool: &mut NodePool,
    Ghost(h): Ghost<nat>,
)
    requires
        kids_wf(old(children)@, h),
        0 < len,
        pos + len <= marks_all(old(children)@).len() <= usize::MAX,
        old(pool).hollow(),
    ensures
        kids_wf(final(children)@, h),
        fused(
            cut(marks_all(old(children)@), pos as int, len as int),
            marks_all(final(children)@),
        ),
        delete_tally(
            marks_all(old(children)@),
            pos as int,
            len as int,
            marks_all(final(children)@),
            *old(pool),
            *final(pool),
            *old(stats),
            *final(stats),
        ),
        books_kept(
            *old(pool),
            *final(pool),
            size_all(old(children)@) as int,
            size_all(final(children)@) as int,
        ),
        final(children)@.len() > 1 ==> nearly_fed(final(children)@),
        all_filled(old(children)@) ==> all_filled(final(children)@),
        all_half_full(old(children)@) && pieces_kept(
            marks_all(old(children)@),
            pos as int,
            len as int,
            marks_all(final(children)@),
        ) ==> {
            &&& all_half_full(final(children)@)
            &&& final(children)@.len() >= old(children)@.len()
            &&& final(pool).merged() == old(pool).merged()
        },
        all_fit(old(children)@) ==> {
            &&& all_fit(final(children)@)
            &&& final(children)@.len() <= old(children)@.len() + 1
            &&& !(inside(marks_all(old(children)@), pos as int) && inside(
                marks_all(old(children)@),
                pos + len,
            )) ==> final(children)@.len() <= old(children)@.len()
            &&& calm(
                marks_all(old(children)@),
                pos as int,
                len as int,
                all_roomy(old(children)@, 1),
            ) ==> final(children)@.len() <= old(children)@.len() && final(pool).made() == old(
                pool,
            ).made()
        },
        final(pool).hollow(),
    decreases h, 2int,
{
    let ghost s = children@;
    let ghost m = marks_all(s);
    let ghost counts = *stats;
    let ghost books = *pool;
    let ghost at = pos as int;
    let mut remaining: usize = len;
    proof {
        lemma_deletion_begins(m, at, len as int, books, counts);
        lemma_all_opens(s, h);
        reveal(kept_so_far);
        if all_fit(s) {
            lemma_all_fit(s);
        }
    }
    while remaining > 0
        invariant
            at == pos,
            remaining <= len,
            pos + len <= m.len() <= usize::MAX,
            kids_wf(children@, h),
            pool.hollow(),
            deleting(
                m,
                at,
                len as int,
                len - remaining,
                marks_all(children@),
                books,
                *pool,
                counts,
                *stats,
            ),
            books_kept(books, *pool, size_all(s) as int, size_all(children@) as int),
            children@.len() <= s.len(),
            all_fit(s) ==> {
                &&& all_half_fit(children@)
                &&& overfull_in(children@) <= 1
                &&& remaining > 0 || !(inside(m, at) && inside(m, at + len)) ==> all_fit(children@)
                &&& calm(m, at, len as int, all_roomy(s, 1)) ==> all_fit(children@) && pool.made()
                    == books.made()
            },
            remaining == len ==> children@ == s,
            all_filled(s) ==> all_filled(children@),
            opens(m),
            kept_so_far(m, at, len - remaining, s, children@, books, *pool),
            0 < remaining < len ==> heads(marks_all(children@)) <= heads(m),
        decreases remaining,
    {
        let ghost t = children@;
        let ghost seen = *stats;
        let ghost kept = *pool;
        let chunk = delete_chunk(children, pos, remaining, stats, pool, Ghost(h));
        proof {
            lemma_deletion_goes_on(
                m,
                at,
                len as int,
                len - remaining,
                chunk as int,
                marks_all(t),
                marks_all(children@),
                books,
                kept,
                *pool,
                counts,
                seen,
                *stats,
            );
            lemma_all_opens(t, h);
            lemma_kept_on(
                m,
                at,
                len - remaining,
                chunk as int,
                s,
                t,
                children@,
                books,
                kept,
                *pool,
            );
        }
        remaining -= chunk;
    }
    let ghost t = children@;
    let ghost seen = *stats;
    let ghost kept = *pool;
    rebalance_children(children, stats, pool, Ghost(h));
    let ghost u = children@;
    let ghost noted = *stats;
    proof {
        if all_fit(t) {
            lemma_all_fit(t);
        }
    }
    settle_children(children, stats, pool, Ghost(h));
    proof {
        let v = children@;
        lemma_fused_trans(cut(m, at, len as int), marks_all(u), marks_all(v));
        lemma_heads_fused(marks_all(u), marks_all(v));
        lemma_heads_fused(cut(m, at, len as int), marks_all(u));
        reveal(kept_so_far);
        let more = heads(marks_all(u)) - heads(marks_all(v));
        lemma_tallied_trans(
            seen,
            noted,
            *stats,
            0,
            size_all(t) - size_all(u),
            0,
            size_all(v) - size_all(u),
            more,
            more,
        );
        lemma_delete_tally_more(
            m,
            at,
            len as int,
            marks_all(t),
            marks_all(v),
            books,
            kept,
            *pool,
            counts,
            seen,
            *stats,
        );
    }
}

/// `after` is what is left of `before`: it is of the same kind, its children are nearly fed, and
/// if no node below `before` was too full, then none below `after` is and it has at most one entry
/// more, or no more if the range did not lie inside of one piece.
pub open spec fn cut_in_bounds(before: BNode, pos: int, len: int, after: BNode) -> bool {
    &&& before is Leaf == after is Leaf
    &&& nearly_fed_kids(after)
    &&& fits_below(before) ==> {
        &&& fits_below(after)
        &&& after.fill() <= before.fill() + 1
        &&& !(inside(before.marks(), pos) && inside(before.marks(), pos + len)) ==> after.fill()
            <= before.fill()
    }
}

impl BNode {
    /// Takes `len` elements from element `pos` on out of the document.
    pub(crate) fn delete_range(
        &mut self,
        pos: usize,
        len: usize,
        stats: &mut Stats,
        pool: &mut NodePool,
        Ghost(h): Ghost<nat>,
    )
        requires
            old(self).wf(h),
            pos + len <= old(self).span(),
            old(pool).hollow(),
        ensures
            len == 0 ==> {
                &&& *final(self) == *old(self)
                &&& *final(stats) == *old(stats)
                &&& *final(pool) == *old(pool)
            },
            len > 0 ==> {
                &&& final(self).ok(h)
                &&& final(self).span() > 0 ==> final(self).wf(h)
                &&& fused(cut(old(self).marks(), pos as int, len as int), final(self).marks())
                &&& delete_tally(
                    old(self).marks(),
                    pos as int,
                    len as int,
                    final(self).marks(),
                    *old(pool),
                    *final(pool),
                    *old(stats),
                    *final(stats),
                )
                &&& books_kept(
                    *old(pool),
                    *final(pool),
                    old(self).size() as int,
                    final(self).size() as int,
                )
                &&& cut_in_bounds(*old(self), pos as int, len as int, *final(self))
                &&& fits(*old(self)) && calm(
                    old(self).marks(),
                    pos as int,
                    len as int,
                    roomy(*old(self), 1),
                ) ==> fits(*final(self)) && final(pool).made() == old(pool).made()
                &&& filled(*old(self)) && final(self).span() > 0 ==> filled(*final(self))
                &&& half_full_below(*old(self)) && pieces_kept(
                    old(self).marks(),
                    pos as int,
                    len as int,
                    final(self).marks(),
                ) ==> {
                    &&& half_full_below(*final(self))
                    &&& final(self).fill() >= old(self).fill()
                    &&& final(pool).merged() == old(pool).merged()
                }
            },
            final(pool).hollow(),
        decreases h, 0int,
    {
        if len == 0 {
            return ;
        }
        let ghost before = *self;
        let ghost m = self.marks();
        proof {
            lemma_fits(before);
            lemma_room(before, 1);
            lemma_filled(before);
        }
        match self {
            BNode::Leaf { pieces, .. } => {
                let ghost ps = pieces@;
                leaf_delete_range(pieces, pos, len, stats);
                proof {
                    lemma_heads_of(ps);
                    lemma_heads_of(pieces@);
                    lemma_marks_opens(ps);
                    lemma_heads_cut(m, pos as int, len as int);
                    lemma_heads_fused(cut(m, pos as int, len as int), marks_of(pieces@));
                }
            },
            BNode::Internal { children, .. } => {
                delete_below(children, pos, len, stats, pool, Ghost((h - 1) as nat));
            },
        }
        self.update_len(Ghost(h));
        proof {
            lemma_fits(*self);
            lemma_filled(*self);
        }
    }
}

/// No two neighbouring pieces could be merged, except perhaps those that meet at `pos`.
pub open spec fn settled_but(m: Seq<Mark>, pos: int) -> bool {
    forall|k: int| 0 <= k < m.len() && k != pos && m[k].head ==> !#[trigger] joined(m, k)
}

/// What merging the pieces that meet in one place counts, where it turned `before` into `after`.
pub open spec fn seam_tally(
    before: Seq<Mark>,
    after: Seq<Mark>,
    p: NodePool,
    q: NodePool,
    s: Stats,
    t: Stats,
) -> bool {
    deletion_counts(s, t, 0, heads(before) - heads(after), p, q)
}

/// Merging at `pos`, and nowhere else, takes away at most the piece that begins there.
pub(crate) proof fn lemma_heads_seam(a: Seq<Mark>, b: Seq<Mark>, pos: int)
    requires
        fused(a, b),
        0 <= pos <= a.len(),
        pos < a.len() ==> a[pos].head,
        settled_but(a, pos),
        opens(a),
        settled(b),
        coherent(b),
        opens(b),
    ensures
        heads(a) - heads(b) == one_if(joined(a, pos)),
{
    if pos < a.len() {
        let c = a.update(pos, Mark { head: !joined(a, pos), ..a[pos] });
        assert forall|k: int| 0 <= k < b.len() implies c[k] == #[trigger] b[k] by {
            if k == pos {
                assert(a[k].at == b[k].at);
                if k > 0 {
                    assert(a[k - 1].at == b[k - 1].at);
                    assert(joined(a, k) == joined(b, k));
                }
            } else if k > 0 && a[k].head && !b[k].head {
                assert(joined(b, k));
                assert(a[k - 1].at == b[k - 1].at);
                assert(joined(a, k));
            }
        }
        assert(b =~= c);
        assert(a =~= a.take(pos) + seq![a[pos]] + a.skip(pos + 1));
        assert(b =~= a.take(pos) + seq![b[pos]] + a.skip(pos + 1));
        lemma_heads_add(a.take(pos) + seq![a[pos]], a.skip(pos + 1));
        lemma_heads_add(a.take(pos), seq![a[pos]]);
        lemma_heads_add(a.take(pos) + seq![b[pos]], a.skip(pos + 1));
        lemma_heads_add(a.take(pos), seq![b[pos]]);
        reveal_with_fuel(heads, 2);
    } else {
        lemma_seam_none(a);
        lemma_fused_equal(a, b);
    }
}

proof fn lemma_seam_none(a: Seq<Mark>)
    requires
        settled_but(a, a.len() as int),
    ensures
        settled(a),
{
}

/// What is known of the piece `p` that begins at `pos`.
proof fn lemma_lies(m: Seq<Mark>, pos: int, p: Piece)
    requires
        lies_at(m, p, pos),
    ensures
        ({
            let n = p.end - p.start;
            let tail = m.skip(pos + n);
            &&& m == m.take(pos) + p.marks() + tail
            &&& headed(tail) == tail
            &&& heads(cut(m, pos, n)) + 1 == heads(m)
            &&& !inside(m, pos)
            &&& !inside(m, pos + n)
            &&& m[pos].buffer == p.buffer && m[pos].at == p.start
        }),
{
    let n = p.end - p.start;
    let tail = m.skip(pos + n);
    assert(m =~= m.take(pos) + m.subrange(pos, pos + n) + tail);
    assert(m[pos] == m.subrange(pos, pos + n)[0]);
    assert(tail.len() > 0 ==> m[pos + n] == tail[0]);
    assert(headed(tail) =~= tail);
    lemma_heads_add(m.take(pos) + p.marks(), tail);
    lemma_heads_add(m.take(pos), p.marks());
    lemma_heads_add(m.take(pos), tail);
    lemma_marks_one(p);
    assert(all_sound(seq![p]));
    lemma_heads_of(seq![p]);
}

/// Once the piece that begins at `pos` is taken out, the piece before it still ends there.
proof fn lemma_seam_open(m: Seq<Mark>, pos: int, p: Piece, without: Seq<Mark>)
    requires
        distinct(m),
        0 < pos < m.len(),
        lies_at(m, p, pos),
        joined(m, pos),
        fused(cut(m, pos, p.end - p.start), without),
        coherent(without),
    ensures
        ends_at(without, pos, p.buffer, p.start as int),
{
    let n = p.end - p.start;
    let c = cut(m, pos, n);
    lemma_lies(m, pos, p);
    assert(c[pos - 1] == m[pos - 1]);
    assert(without[pos - 1].at == c[pos - 1].at);
    assert(without[pos - 1].buffer == c[pos - 1].buffer);
    if pos < c.len() {
        assert(c[pos].buffer == m[pos + n].buffer && c[pos].at == m[pos + n].at);
        assert(m[pos].buffer != m[pos + n].buffer || m[pos].at != m[pos + n].at);
        assert(without[pos].at == c[pos].at && without[pos].buffer == c[pos].buffer);
        assert(!joined(without, pos));
        assert(without[pos].head);
    }
}

/// A piece that begins at `pos` taken out, and the piece before it grown by as much.
proof fn lemma_seam_joined(
    m: Seq<Mark>,
    pos: int,
    p: Piece,
    without: Seq<Mark>,
    after: Seq<Mark>,
)
    requires
        0 < pos < m.len(),
        lies_at(m, p, pos),
        fused(cut(m, pos, p.end - p.start), without),
        fused(grown(without, pos, p.buffer, p.start as int, p.end as int), after),
        settled_but(m, pos),
    ensures
        fused(m, after),
        settled(after),
{
    let n = p.end - p.start;
    let c = cut(m, pos, n);
    let tail = m.skip(pos + n);
    let g = grown(without, pos, p.buffer, p.start as int, p.end as int);
    lemma_lies(m, pos, p);
    assert forall|k: int| 0 <= k < m.len() implies m[k].buffer == #[trigger] g[k].buffer
        && m[k].at == g[k].at && (g[k].head ==> m[k].head && k != pos) by {
        if k < pos {
            assert(g[k] == without[k]);
            assert(c[k] == m[k]);
        } else if k < pos + n {
            assert(m[k] == p.marks()[k - pos]);
            assert(g[k] == run(p.buffer, p.start as int, p.end as int, false)[k - pos]);
        } else {
            assert(g[k] == without[k - n]);
            assert(c[k - n] == tail[k - n - pos]);
            assert(m[k] == tail[k - n - pos]);
        }
    }
    assert(fused(m, g)) by {
        assert forall|k: int|
            #![trigger m[k]]
            #![trigger g[k]]
            0 <= k < m.len() implies m[k].buffer == g[k].buffer && m[k].at == g[k].at && (
        g[k].head ==> m[k].head) by {
            assert(m[k].buffer == g[k].buffer);
        }
    }
    lemma_fused_trans(m, g, after);
    assert forall|k: int| 0 <= k < after.len() && (#[trigger] after[k]).head implies !joined(
        after,
        k,
    ) by {
        assert(g[k].head);
        assert(m[k].head && k != pos);
        assert(!joined(m, k));
        if k > 0 {
            assert(m[k - 1].at == after[k - 1].at);
        }
    }
}

/// The piece that begins at `pos`, if it continues the piece before it.
fn mergeable_at(root: &BNode, pos: usize, Ghost(h): Ghost<nat>) -> (r: Option<Piece>)
    requires
        root.wf(h),
        settled_but(root.marks(), pos as int),
    ensures
        match r {
            Some(p) => {
                &&& 0 < pos < root.marks().len()
                &&& lies_at(root.marks(), p, pos as int)
                &&& joined(root.marks(), pos as int)
            },
            None => settled(root.marks()),
        },
{
    let ghost m = root.marks();
    let ghost at = pos as int;
    if pos == 0 || pos >= root.len() {
        return None;
    }
    let (left, _, _) = root.find(pos - 1, 0, Ghost(h));
    let (right, offset, _) = root.find(pos, 0, Ghost(h));
    if offset > 0 || !can_coalesce(left, right) {
        proof {
            lemma_seam_apart(m, at, *left, *right, offset as int);
        }
        return None;
    }
    proof {
        lemma_seam_there(m, at, *left, *right);
    }
    Some(*right)
}

proof fn lemma_seam_tally(
    m: Seq<Mark>,
    pos: int,
    n: int,
    without: Seq<Mark>,
    after: Seq<Mark>,
    p: NodePool,
    q: NodePool,
    r: NodePool,
    s: Stats,
    t: Stats,
    u: Stats,
    v: Stats,
)
    requires
        delete_tally(m, pos, n, without, p, q, s, t),
        !inside(m, pos),
        !inside(m, pos + n),
        heads(cut(m, pos, n)) + 1 == heads(m),
        grow_tally(without, after, r.made() - q.made(), t, u),
        r.merged() == q.merged(),
        tallied(u, v, 0, 1, 1),
    ensures
        seam_tally(m, after, p, r, s, v),
{
    let j1 = heads(cut(m, pos, n)) - heads(without);
    let x = q.made() - p.made();
    let y = q.merged() - p.merged();
    let made = r.made() - q.made();
    let j2 = heads(without) - heads(after);
    lemma_tallied_trans(s, t, u, 0int + x, j1 + y, j1, made, j2, j2);
    lemma_tallied_trans(s, u, v, x + made, j1 + y + j2, j1 + j2, 0, 1, 1);
}

/// Merges the pieces that meet before element `pos`, if the second continues the first.
///
/// The pieces may lie in different leaves: the second is taken out, and the first grown by as
/// much.
pub(crate) fn coalesce_seam(
    root: &mut BNode,
    pos: usize,
    stats: &mut Stats,
    pool: &mut NodePool,
    Ghost(h): Ghost<nat>,
)
    requires
        old(root).wf(h),
        distinct(old(root).marks()),
        settled_but(old(root).marks(), pos as int),
        old(pool).hollow(),
    ensures
        final(root).wf(h),
        fused(old(root).marks(), final(root).marks()),
        settled(final(root).marks()),
        seam_tally(
            old(root).marks(),
            final(root).marks(),
            *old(pool),
            *final(pool),
            *old(stats),
            *final(stats),
        ),
        books_kept(
            *old(pool),
            *final(pool),
            old(root).size() as int,
            final(root).size() as int,
        ),
        (*final(root)) is Leaf == (*old(root)) is Leaf,
        fits_below(*old(root)) ==> fits_below(*final(root)) && final(root).fill() <= old(
            root,
        ).fill(),
        fits(*old(root)) ==> final(pool).made() == old(pool).made(),
        filled(*old(root)) ==> filled(*final(root)),
        nearly_fed_kids(*old(root)) ==> nearly_fed_kids(*final(root)),
        settled(old(root).marks()) ==> {
            &&& *final(root) == *old(root)
            &&& *final(stats) == *old(stats)
            &&& *final(pool) == *old(pool)
        },
        final(pool).hollow(),
{
    let ghost m = root.marks();
    let ghost counts = *stats;
    let ghost books = *pool;
    if let Some(right) = mergeable_at(root, pos, Ghost(h)) {
        let n = right.len();
        let ghost at = pos as int;
        proof {
            lemma_lies(m, at, right);
            lemma_node_opens(*root, h);
            assert(m[at].head && joined(m, at));
        }
        root.delete_range(pos, n, stats, pool, Ghost(h));
        proof {
            lemma_fits(*root);
        }
        let ghost without = root.marks();
        let ghost seen = *stats;
        let ghost kept = *pool;
        proof {
            lemma_node_coherent(*root, h);
            lemma_seam_open(m, at, right, without);
        }
        root.extend_at(pos, right.buffer, right.start, right.end, stats, pool, Ghost(h));
        let ghost noted = *stats;
        stats.note_join();
        proof {
            lemma_seam_joined(m, at, right, without, root.marks());
            lemma_node_coherent(*root, h);
            lemma_node_opens(*root, h);
            lemma_heads_seam(m, root.marks(), at);
            lemma_heads_fused(cut(m, at, n as int), without);
            lemma_heads_grown(
                without,
                at,
                right.buffer,
                right.start as int,
                right.end as int,
            );
            lemma_heads_fused(
                grown(without, at, right.buffer, right.start as int, right.end as int),
                root.marks(),
            );
            lemma_seam_tally(
                m,
                at,
                n as int,
                without,
                root.marks(),
                books,
                kept,
                *pool,
                counts,
                seen,
                noted,
                *stats,
            );
        }
    } else {
        proof {
            lemma_tallied_none(counts);
        }
    }
}

/// The pieces that meet at `at` cannot be merged, or none begins there.
proof fn lemma_seam_apart(m: Seq<Mark>, at: int, left: Piece, right: Piece, offset: int)
    requires
        0 < at < m.len(),
        settled_but(m, at),
        0 <= offset < right.end - right.start,
        lies_at(m, right, at - offset),
        exists|s: int| lies_at(m, left, s) && s <= at - 1 < s + (left.end - left.start),
        offset > 0 || !continues(left, right),
    ensures
        settled(m),
{
    let s = choose|s: int| lies_at(m, left, s) && s <= at - 1 < s + (left.end - left.start);
    let e = s + (left.end - left.start);
    assert(m[at] == m.subrange(at - offset, at - offset + (right.end - right.start))[offset]);
    assert(m[at - 1] == m.subrange(s, e)[at - 1 - s]);
    if offset == 0 {
        if at < e {
            assert(m[at] == m.subrange(s, e)[at - s]);
        }
        assert(at == e);
        assert(!joined(m, at));
    }
}

/// The pieces that meet at `at` can be merged.
proof fn lemma_seam_there(m: Seq<Mark>, at: int, left: Piece, right: Piece)
    requires
        0 < at < m.len(),
        lies_at(m, right, at),
        exists|s: int| lies_at(m, left, s) && s <= at - 1 < s + (left.end - left.start),
        continues(left, right),
    ensures
        joined(m, at),
{
    let s = choose|s: int| lies_at(m, left, s) && s <= at - 1 < s + (left.end - left.start);
    let e = s + (left.end - left.start);
    assert(m[at] == m.subrange(at, at + (right.end - right.start))[0]);
    assert(m[at - 1] == m.subrange(s, e)[at - 1 - s]);
    if at < e {
        assert(m[at] == m.subrange(s, e)[at - s]);
    }
}

/// The first node, on the way down from `root`, that has not just one child.
pub(crate) fn compact_root(
    root: Box<BNode>,
    pool: &mut NodePool,
    Ghost(h): Ghost<nat>,
) -> (r: Box<BNode>)
    requires
        root.wf(h),
        old(pool).hollow(),
    ensures
        r.wf(r.tall()),
        r.marks() == root.marks(),
        r.tall() <= h,
        (*r) is Internal ==> r.fill() > 1,
        r == root || (fits_below(*root) ==> fits(*r)),
        filled(*root) ==> filled(*r),
        r.tall() == h ==> r == root,
        books_kept(*old(pool), *final(pool), root.size() as int, r.size() as int),
        final(pool).made() == old(pool).made(),
        final(pool).merged() == old(pool).merged(),
        final(pool).hollow(),
{
    let mut node = root;
    let ghost mut k = h;
    loop
        invariant
            node.wf(k),
            k <= h,
            node.marks() == root.marks(),
            node == root || (fits_below(*root) ==> fits(*node)),
            filled(*root) ==> filled(*node),
            node == root || k < h,
            pool.made() == old(pool).made(),
            pool.merged() == old(pool).merged(),
            node.size() <= root.size(),
            node.size() + pool.freed() == root.size() + old(pool).freed(),
            pool.hollow(),
        decreases k,
    {
        if !has_only_child(&node) {
            proof {
                lemma_tall(*node, k);
            }
            return node;
        }
        let ghost was = node;
        match &mut *node {
            BNode::Internal { children, .. } => {
                let only = children.remove(0);
                proof {
                    lemma_only_child(*was, *only, k);
                    if fits_below(*was) {
                        lemma_fit_at(seq![only], 0);
                    }
                    lemma_fits(*was);
                    assert(filled(*was) ==> filled(*only)) by {
                        lemma_filled(*was);
                        reveal(all_filled);
                    }
                    reveal_with_fuel(size_all, 2);
                    k = (k - 1) as nat;
                }
                pool.recycle(node);
                node = only;
            },
            BNode::Leaf { .. } => {
                return node;
            },
        }
    }
}

fn has_only_child(node: &BNode) -> (b: bool)
    ensures
        b == ((*node) is Internal && node.fill() == 1),
{
    match node {
        BNode::Internal { children, .. } => children.len() == 1,
        BNode::Leaf { .. } => false,
    }
}

proof fn lemma_only_child(parent: BNode, child: BNode, h: nat)
    requires
        parent.wf(h),
        match parent {
            BNode::Internal { children, .. } => children@.len() == 1 && *children@[0] == child,
            _ => false,
        },
    ensures
        h > 1,
        child.wf((h - 1) as nat),
        child.marks() == parent.marks(),
        child.size() + 1 == parent.size(),
        fits_below(parent) ==> all_fit(seq![Box::new(child)]),
{
    match parent {
        BNode::Internal { children, .. } => {
            assert(children@[0].wf((h - 1) as nat));
            assert(children@ =~= seq![children@[0]]);
            lemma_all_one(children@[0]);
        },
        _ => {},
    }
}

} // verus!
