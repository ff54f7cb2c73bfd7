//! Edits of a list of pieces.
use vstd::prelude::*;

use crate::piece::{
    all_ordered, all_sound, continues, cut, fused, headed, heads, inside, lemma_fused_add,
    lemma_fused_trans, lemma_heads_add, lemma_heads_of, lemma_marks_add, lemma_marks_at,
    lemma_marks_one, lemma_marks_opens, lemma_marks_prefix, lemma_merge_at, lemma_tidy_settled,
    loose, marks_of, merge_at, opens, run, settled, splice, tidy, tidy_except, Mark, Piece,
};
use crate::stats::{lemma_tallied_none, lemma_tallied_trans, tallied, Stats};

verus! {

pub open spec fn one_if(b: bool) -> int {
    if b {
        1
    } else {
        0
    }
}

/// Whether `right` could be merged into `left`.
pub(crate) fn can_coalesce(left: &Piece, right: &Piece) -> (b: bool)
    ensures
        b == continues(*left, *right),
{
    left.buffer == right.buffer && left.end == right.start
}

/// How many elements the pieces stand for.
pub(crate) fn pieces_len(pieces: &Vec<Piece>) -> (n: usize)
    requires
        all_ordered(pieces@),
        marks_of(pieces@).len() <= usize::MAX,
    ensures
        n == marks_of(pieces@).len(),
{
    let mut sum: usize = 0;
    for i in 0..pieces.len()
        invariant
            all_ordered(pieces@),
            marks_of(pieces@).len() <= usize::MAX,
            sum == marks_of(pieces@.take(i as int)).len(),
    {
        proof {
            lemma_marks_prefix(pieces@, i as int);
        }
        sum += pieces[i].len();
    }
    assert(pieces@.take(pieces@.len() as int) =~= pieces@);
    sum
}

/// Merging pair `i` makes no other pair mergeable.
proof fn lemma_merge_at_tidy(ps: Seq<Piece>, i: int, k: int)
    requires
        0 <= i < ps.len() - 1,
        0 <= k < ps.len() - 2,
        loose(ps, i),
    ensures
        k < i ==> loose(merge_at(ps, i), k) == loose(ps, k),
        k >= i ==> loose(merge_at(ps, i), k) == loose(ps, k + 1),
{
}

/// Merges piece `at` with the pieces before and after it, as far as they can be merged.
pub(crate) fn coalesce_around(pieces: &mut Vec<Piece>, at: usize, stats: &mut Stats)
    requires
        all_sound(old(pieces)@),
        at < old(pieces)@.len(),
    ensures
        all_sound(final(pieces)@),
        1 <= final(pieces)@.len() <= old(pieces)@.len(),
        fused(marks_of(old(pieces)@), marks_of(final(pieces)@)),
        tidy_except(old(pieces)@, at - 1, at as int) ==> tidy(final(pieces)@),
        tallied(
            *old(stats),
            *final(stats),
            0,
            old(pieces)@.len() - final(pieces)@.len(),
            old(pieces)@.len() - final(pieces)@.len(),
        ),
{
    let ghost start = pieces@;
    let ghost counts = *stats;
    let mut idx: usize = at;
    proof {
        lemma_tallied_none(counts);
    }
    while idx > 0
        invariant_except_break
            tidy_except(start, at - 1, at as int) ==> tidy_except(pieces@, idx - 1, idx as int),
        invariant
            idx < pieces@.len() <= start.len(),
            all_sound(pieces@),
            fused(marks_of(start), marks_of(pieces@)),
            tallied(
                counts,
                *stats,
                0,
                start.len() - pieces@.len(),
                start.len() - pieces@.len(),
            ),
        ensures
            tidy_except(start, at - 1, at as int) ==> tidy_except(pieces@, idx as int, idx as int),
        decreases idx,
    {
        if can_coalesce(&pieces[idx - 1], &pieces[idx]) {
            let ghost before = pieces@;
            let ghost seen = *stats;
            assert(loose(before, idx - 1));
            let end = pieces[idx].end;
            pieces[idx - 1].end = end;
            pieces.remove(idx);
            stats.note_join();
            proof {
                assert(pieces@ =~= merge_at(before, idx - 1));
                lemma_merge_at(before, idx - 1);
                lemma_fused_trans(marks_of(start), marks_of(before), marks_of(pieces@));
                let n = start.len() - before.len();
                lemma_tallied_trans(counts, seen, *stats, 0, n, n, 0, 1, 1);
                if tidy_except(start, at - 1, at as int) {
                    assert forall|k: int|
                        0 <= k < pieces@.len() - 1 && k != idx - 2 && k != idx
                            - 1 implies !#[trigger] loose(pieces@, k) by {
                        lemma_merge_at_tidy(before, idx - 1, k);
                        if k < idx - 1 {
                            assert(!loose(before, k));
                        } else {
                            assert(!loose(before, k + 1));
                        }
                    }
                }
            }
            idx -= 1;
        } else {
            assert(!loose(pieces@, idx - 1));
            break ;
        }
    }
    while idx < pieces.len() - 1
        invariant_except_break
            tidy_except(start, at - 1, at as int) ==> tidy_except(pieces@, idx as int, idx as int),
        invariant
            idx < pieces@.len() <= start.len(),
            all_sound(pieces@),
            fused(marks_of(start), marks_of(pieces@)),
            tallied(
                counts,
                *stats,
                0,
                start.len() - pieces@.len(),
                start.len() - pieces@.len(),
            ),
        ensures
            tidy_except(start, at - 1, at as int) ==> tidy(pieces@),
        decreases pieces@.len(),
    {
        if can_coalesce(&pieces[idx], &pieces[idx + 1]) {
            let ghost before = pieces@;
            let ghost seen = *stats;
            assert(loose(before, idx as int));
            let end = pieces[idx + 1].end;
            pieces[idx].end = end;
            pieces.remove(idx + 1);
            stats.note_join();
            proof {
                assert(pieces@ =~= merge_at(before, idx as int));
                lemma_merge_at(before, idx as int);
                lemma_fused_trans(marks_of(start), marks_of(before), marks_of(pieces@));
                let n = start.len() - before.len();
                lemma_tallied_trans(counts, seen, *stats, 0, n, n, 0, 1, 1);
                if tidy_except(start, at - 1, at as int) {
                    assert forall|k: int|
                        0 <= k < pieces@.len() - 1 && k != idx implies !#[trigger] loose(
                        pieces@,
                        k,
                    ) by {
                        lemma_merge_at_tidy(before, idx as int, k);
                        if k < idx {
                            assert(!loose(before, k));
                        } else {
                            assert(!loose(before, k + 1));
                        }
                    }
                }
            }
        } else {
            assert(!loose(pieces@, idx as int));
            break ;
        }
    }
}

/// A piece put between two pieces.
proof fn lemma_insert_between(ps: Seq<Piece>, i: int, x: Piece)
    requires
        all_sound(ps),
        x.sound(),
        0 <= i <= ps.len(),
    ensures
        all_sound(ps.insert(i, x)),
        marks_of(ps.insert(i, x)) == splice(
            marks_of(ps),
            marks_of(ps.take(i)).len() as int,
            x.marks(),
        ),
        !inside(marks_of(ps), marks_of(ps.take(i)).len() as int),
        tidy(ps) ==> tidy_except(ps.insert(i, x), i - 1, i),
{
    let q = ps.insert(i, x);
    let m = marks_of(ps);
    let a = marks_of(ps.take(i));
    let c = marks_of(ps.skip(i));
    assert(ps =~= ps.take(i) + ps.skip(i));
    lemma_marks_add(ps.take(i), ps.skip(i));
    assert(q =~= ps.take(i) + seq![x] + ps.skip(i));
    lemma_marks_add(ps.take(i) + seq![x], ps.skip(i));
    lemma_marks_add(ps.take(i), seq![x]);
    lemma_marks_one(x);
    assert(all_sound(ps.skip(i)));
    lemma_marks_opens(ps.skip(i));
    assert(m.take(a.len() as int) =~= a);
    assert(m.skip(a.len() as int) =~= c);
    assert(headed(c) =~= c);
    if c.len() > 0 {
        assert(m[a.len() as int] == c[0]);
    }
    if tidy(ps) {
        assert forall|k: int|
            0 <= k < q.len() - 1 && k != i - 1 && k != i implies !#[trigger] loose(q, k) by {
            if k < i - 1 {
                assert(!loose(ps, k));
            } else {
                assert(!loose(ps, k - 1));
            }
        }
    }
}

/// A piece put into piece `i`, `by` elements after that begins.
#[verifier::rlimit(30)]
proof fn lemma_insert_inside(ps: Seq<Piece>, i: int, by: int, x: Piece)
    requires
        all_sound(ps),
        x.sound(),
        0 <= i < ps.len(),
        0 < by < ps[i].end - ps[i].start,
    ensures
        ({
            let p = ps[i];
            let l = Piece { end: (p.start + by) as usize, ..p };
            let r = Piece { start: (p.start + by) as usize, ..p };
            let q = ps.update(i, l).insert(i + 1, x).insert(i + 2, r);
            let pos = marks_of(ps.take(i)).len() + by;
            &&& all_sound(q)
            &&& marks_of(q) == splice(marks_of(ps), pos, x.marks())
            &&& inside(marks_of(ps), pos)
            &&& tidy(ps) ==> tidy_except(q, i, i + 1)
        }),
{
    let p = ps[i];
    let l = Piece { end: (p.start + by) as usize, ..p };
    let r = Piece { start: (p.start + by) as usize, ..p };
    let q = ps.update(i, l).insert(i + 1, x).insert(i + 2, r);
    let m = marks_of(ps);
    let a = marks_of(ps.take(i));
    let c = marks_of(ps.skip(i + 1));
    let pos = a.len() + by;
    assert(p.sound());
    lemma_marks_at(ps, i);
    assert(q =~= ps.take(i) + seq![l] + seq![x] + seq![r] + ps.skip(i + 1));
    lemma_marks_add(ps.take(i) + seq![l] + seq![x] + seq![r], ps.skip(i + 1));
    lemma_marks_add(ps.take(i) + seq![l] + seq![x], seq![r]);
    lemma_marks_add(ps.take(i) + seq![l], seq![x]);
    lemma_marks_add(ps.take(i), seq![l]);
    lemma_marks_one(l);
    lemma_marks_one(x);
    lemma_marks_one(r);
    assert(p.marks().take(by) =~= l.marks());
    assert(headed(p.marks().skip(by)) =~= r.marks());
    assert(m.take(pos) =~= a + l.marks());
    assert(headed(m.skip(pos)) =~= r.marks() + c);
    assert(marks_of(q) =~= splice(m, pos, x.marks()));
    assert(m[pos] == p.marks()[by]);
    if tidy(ps) {
        assert forall|k: int|
            0 <= k < q.len() - 1 && k != i && k != i + 1 implies !#[trigger] loose(q, k) by {
            if k < i {
                assert(!loose(ps, k));
            } else {
                assert(!loose(ps, k - 2));
            }
        }
    }
}

/// Puts `inserted` before piece `i`, and merges it with its neighbours.
fn insert_between(pieces: &mut Vec<Piece>, i: usize, inserted: Piece, stats: &mut Stats)
    requires
        all_sound(old(pieces)@),
        inserted.sound(),
        i <= old(pieces)@.len(),
    ensures
        ({
            let ps = old(pieces)@;
            let pos = marks_of(ps.take(i as int)).len() as int;
            let joins = ps.len() + 1 - final(pieces)@.len();
            &&& all_sound(final(pieces)@)
            &&& final(pieces)@.len() >= 1
            &&& fused(splice(marks_of(ps), pos, inserted.marks()), marks_of(final(pieces)@))
            &&& settled(marks_of(ps)) ==> settled(marks_of(final(pieces)@))
            &&& !inside(marks_of(ps), pos)
            &&& tallied(*old(stats), *final(stats), 0, joins, joins)
        }),
{
    proof {
        lemma_tidy_settled(pieces@);
        lemma_insert_between(pieces@, i as int, inserted);
    }
    pieces.insert(i, inserted);
    coalesce_around(pieces, i, stats);
    proof {
        lemma_tidy_settled(pieces@);
    }
}

/// Puts `inserted` into piece `i`, `by` elements after that begins, and merges it with its
/// neighbours.
fn insert_inside(pieces: &mut Vec<Piece>, i: usize, by: usize, inserted: Piece, stats: &mut Stats)
    requires
        all_sound(old(pieces)@),
        inserted.sound(),
        i < old(pieces)@.len(),
        0 < by < old(pieces)@[i as int].end - old(pieces)@[i as int].start,
    ensures
        ({
            let ps = old(pieces)@;
            let pos = marks_of(ps.take(i as int)).len() + by;
            let joins = ps.len() + 2 - final(pieces)@.len();
            &&& all_sound(final(pieces)@)
            &&& final(pieces)@.len() >= 1
            &&& fused(splice(marks_of(ps), pos, inserted.marks()), marks_of(final(pieces)@))
            &&& settled(marks_of(ps)) ==> settled(marks_of(final(pieces)@))
            &&& inside(marks_of(ps), pos)
            &&& tallied(*old(stats), *final(stats), 1, joins, joins)
        }),
{
    let ghost ps = pieces@;
    let ghost counts = *stats;
    proof {
        lemma_tidy_settled(ps);
        lemma_insert_inside(ps, i as int, by as int, inserted);
    }
    assert(pieces.len() == ps.len());
    let p = pieces[i];
    let left_piece = Piece { buffer: p.buffer, start: p.start, end: p.start + by };
    let right_piece = Piece { buffer: p.buffer, start: p.start + by, end: p.end };
    pieces[i] = left_piece;
    pieces.insert(i + 1, inserted);
    assert(pieces.len() == ps.len() + 1);
    pieces.insert(i + 2, right_piece);
    stats.note_split();
    let ghost mid = pieces@;
    let ghost seen = *stats;
    coalesce_around(pieces, i + 1, stats);
    proof {
        lemma_tidy_settled(pieces@);
        let n = mid.len() - pieces@.len();
        lemma_tallied_trans(counts, seen, *stats, 1, 0, 0, 0, n, n);
    }
}

/// Puts `inserted` into the list before element `pos`, and merges it with its neighbours as far
/// as they can be merged.
pub(crate) fn leaf_insert_piece(
    pieces: &mut Vec<Piece>,
    pos: usize,
    inserted: Piece,
    stats: &mut Stats,
)
    requires
        all_sound(old(pieces)@),
        inserted.sound(),
        pos <= marks_of(old(pieces)@).len() <= usize::MAX,
    ensures
        all_sound(final(pieces)@),
        final(pieces)@.len() >= 1,
        fused(
            splice(marks_of(old(pieces)@), pos as int, inserted.marks()),
            marks_of(final(pieces)@),
        ),
        settled(marks_of(old(pieces)@)) ==> settled(marks_of(final(pieces)@)),
        ({
            let split = one_if(inside(marks_of(old(pieces)@), pos as int));
            let joins = old(pieces)@.len() + 1 + split - final(pieces)@.len();
            tallied(*old(stats), *final(stats), split, joins, joins)
        }),
{
    let ghost ps = pieces@;
    assert(ps.take(0) =~= Seq::empty());
    if pieces.len() == 0 {
        insert_between(pieces, 0, inserted, stats);
        return ;
    }
    let mut cursor: usize = 0;
    let count = pieces.len();
    for i in 0..count
        invariant
            ps == old(pieces)@,
            *stats == *old(stats),
            count == ps.len(),
            pieces@ == ps,
            all_sound(ps),
            inserted.sound(),
            cursor == marks_of(ps.take(i as int)).len(),
            cursor <= pos <= marks_of(ps).len() <= usize::MAX,
            i > 0 ==> cursor < pos,
    {
        let p = pieces[i];
        assert(ps[i as int].sound());
        proof {
            lemma_marks_prefix(ps, i as int);
        }
        let start = cursor;
        let end = cursor + p.len();
        if pos > end {
            cursor = end;
        } else {
            if pos == start {
                insert_between(pieces, i, inserted, stats);
            } else if pos == end {
                insert_between(pieces, i + 1, inserted, stats);
            } else {
                insert_inside(pieces, i, pos - start, inserted, stats);
            }
            return ;
        }
    }
    assert(ps.take(ps.len() as int) =~= ps);
}

/// Merges every two neighbouring pieces that can be merged.
pub(crate) fn coalesce_all(pieces: &mut Vec<Piece>, stats: &mut Stats)
    requires
        all_sound(old(pieces)@),
    ensures
        all_sound(final(pieces)@),
        tidy(final(pieces)@),
        fused(marks_of(old(pieces)@), marks_of(final(pieces)@)),
        ({
            let joins = old(pieces)@.len() - final(pieces)@.len();
            tallied(*old(stats), *final(stats), 0, joins, joins)
        }),
{
    let ghost ps = pieces@;
    let ghost counts = *stats;
    proof {
        lemma_tallied_none(counts);
    }
    let count = pieces.len();
    if count < 2 {
        return ;
    }
    let mut out: Vec<Piece> = Vec::with_capacity(count);
    out.push(pieces[0]);
    assert(ps.take(1) =~= out@);
    for i in 1..count
        invariant
            count == ps.len(),
            pieces@ == ps,
            all_sound(ps),
            1 <= out@.len() <= i,
            all_sound(out@),
            tidy(out@),
            fused(marks_of(ps.take(i as int)), marks_of(out@)),
            tallied(counts, *stats, 0, i - out@.len(), i - out@.len()),
    {
        let p = pieces[i];
        let last = out.len() - 1;
        let ghost before = out@;
        let ghost seen = *stats;
        let ghost with_p = before.push(p);
        proof {
            assert(ps[i as int].sound());
            lemma_marks_at(ps, i as int);
            assert(with_p =~= before + seq![p]);
            lemma_marks_add(before, seq![p]);
            lemma_marks_one(p);
            lemma_fused_add(
                marks_of(ps.take(i as int)),
                marks_of(before),
                p.marks(),
                p.marks(),
            );
        }
        if can_coalesce(&out[last], &p) {
            out[last].end = p.end;
            stats.note_join();
            proof {
                assert(loose(with_p, last as int));
                lemma_merge_at(with_p, last as int);
                assert(out@ =~= merge_at(with_p, last as int));
                lemma_fused_trans(
                    marks_of(ps.take(i + 1)),
                    marks_of(with_p),
                    marks_of(out@),
                );
                let n = i - before.len();
                lemma_tallied_trans(counts, seen, *stats, 0, n, n, 0, 1, 1);
                assert forall|k: int| 0 <= k < out@.len() - 1 implies !#[trigger] loose(
                    out@,
                    k,
                ) by {
                    assert(!loose(before, k));
                }
            }
        } else {
            out.push(p);
            proof {
                assert forall|k: int| 0 <= k < out@.len() - 1 implies !#[trigger] loose(
                    out@,
                    k,
                ) by {
                    if k < last {
                        assert(!loose(before, k));
                    }
                }
            }
        }
    }
    assert(ps.take(ps.len() as int) =~= ps);
    *pieces = out;
}

/// What is left of `m`, the beginning of a document, when the elements from `from` up to `to`
/// are taken out of the document.
spec fn kept(m: Seq<Mark>, from: int, to: int) -> Seq<Mark> {
    let f = if from < m.len() {
        from
    } else {
        m.len() as int
    };
    let t = if to < m.len() {
        to
    } else {
        m.len() as int
    };
    m.take(f) + headed(m.skip(t))
}

/// One piece more: what is kept of it follows what was kept before.
proof fn lemma_kept_step(m: Seq<Mark>, p: Piece, from: int, to: int)
    requires
        p.sound(),
        0 <= from < to,
    ensures
        ({
            let a = m.len() as int;
            let b = a + (p.end - p.start);
            let now = kept(m + p.marks(), from, to);
            let l = run(p.buffer, p.start as int, p.start + (from - a), true);
            let r = run(p.buffer, p.start + (to - a), p.end as int, true);
            &&& (b <= from || a >= to ==> now == kept(m, from, to) + p.marks())
            &&& (a < from < b && b <= to ==> now == kept(m, from, to) + l)
            &&& (from <= a && a < to < b ==> now == kept(m, from, to) + r)
            &&& (a < from && to < b ==> now == kept(m, from, to) + l + r)
            &&& (from <= a && b <= to ==> now == kept(m, from, to))
        }),
{
    let a = m.len() as int;
    let b = a + (p.end - p.start);
    let n = m + p.marks();
    let now = kept(n, from, to);
    let l = run(p.buffer, p.start as int, p.start + (from - a), true);
    let r = run(p.buffer, p.start + (to - a), p.end as int, true);
    let was = kept(m, from, to);
    if b <= from {
        assert(was =~= m);
        assert(now =~= n);
    } else if a >= to {
        if a > to {
            assert(headed(n.skip(to)) =~= headed(m.skip(to)) + p.marks());
        } else {
            assert(headed(n.skip(to)) =~= p.marks());
        }
        assert(now =~= was + p.marks());
    } else {
        assert(headed(m.skip(a)) =~= Seq::empty());
        if a < from {
            assert(n.take(from) =~= m + l);
        } else {
            assert(n.take(from) =~= m.take(from));
        }
        if to < b {
            assert(headed(n.skip(to)) =~= r);
        } else {
            assert(headed(n.skip(b)) =~= Seq::empty());
        }
        if a < from && to < b {
            assert(now =~= was + l + r);
        } else if a < from {
            assert(now =~= was + l);
        } else if to < b {
            assert(now =~= was + r);
        } else {
            assert(now =~= was);
        }
    }
}

/// Position `pos` is strictly between the ends of piece `i`, or it is not inside a piece
/// because of it.
proof fn lemma_inside_piece(ps: Seq<Piece>, i: int, pos: int)
    requires
        all_sound(ps),
        0 <= i < ps.len(),
        marks_of(ps.take(i)).len() <= pos < marks_of(ps.take(i + 1)).len(),
    ensures
        inside(marks_of(ps), pos) <==> marks_of(ps.take(i)).len() < pos,
{
    assert(ps[i].sound());
    lemma_marks_at(ps, i);
    assert(marks_of(ps)[pos] == ps[i].marks()[pos - marks_of(ps.take(i)).len()]);
}

/// Takes `len` elements from element `pos` on out of the list, and merges what can be merged.
pub(crate) fn leaf_delete_range(pieces: &mut Vec<Piece>, pos: usize, len: usize, stats: &mut Stats)
    requires
        all_sound(old(pieces)@),
        pos + len <= marks_of(old(pieces)@).len() <= usize::MAX,
    ensures
        len == 0 ==> *final(pieces) == *old(pieces) && *final(stats) == *old(stats),
        len > 0 ==> {
            let m = marks_of(old(pieces)@);
            let splits = one_if(inside(m, pos as int)) + one_if(inside(m, pos + len));
            let joins = heads(cut(m, pos as int, len as int)) - final(pieces)@.len();
            &&& all_sound(final(pieces)@)
            &&& tidy(final(pieces)@)
            &&& fused(cut(m, pos as int, len as int), marks_of(final(pieces)@))
            &&& tallied(*old(stats), *final(stats), splits, joins, joins)
        },
{
    if len == 0 {
        return ;
    }
    let ghost ps = pieces@;
    let ghost m = marks_of(ps);
    let ghost counts = *stats;
    let delete_start = pos;
    let delete_end = pos + len;
    let mut out: Vec<Piece> = Vec::with_capacity(pieces.len());
    let mut cursor: usize = 0;
    let count = pieces.len();
    proof {
        lemma_tallied_none(counts);
        assert(ps.take(0) =~= Seq::empty());
        assert(kept(Seq::empty(), pos as int, pos + len) =~= Seq::empty());
    }
    for i in 0..count
        invariant
            count == ps.len(),
            pieces@ == ps,
            all_sound(ps),
            m == marks_of(ps),
            delete_start == pos,
            delete_end == pos + len,
            len > 0,
            delete_end <= m.len() <= usize::MAX,
            cursor == marks_of(ps.take(i as int)).len(),
            all_sound(out@),
            marks_of(out@) == kept(marks_of(ps.take(i as int)), pos as int, pos + len),
            tallied(
                counts,
                *stats,
                one_if(inside(m, pos as int) && pos < cursor) + one_if(
                    inside(m, pos + len) && pos + len < cursor,
                ),
                0,
                0,
            ),
    {
        let p = pieces[i];
        let ghost before = out@;
        let ghost was = marks_of(ps.take(i as int));
        let ghost seen = *stats;
        let ghost splits = one_if(inside(m, pos as int) && pos < cursor) + one_if(
            inside(m, pos + len) && pos + len < cursor,
        );
        proof {
            assert(ps[i as int].sound());
            lemma_marks_prefix(ps, i as int);
            lemma_marks_at(ps, i as int);
            lemma_kept_step(was, p, pos as int, pos + len);
            if cursor <= pos < cursor + (p.end - p.start) {
                lemma_inside_piece(ps, i as int, pos as int);
            }
            if cursor <= pos + len < cursor + (p.end - p.start) {
                lemma_inside_piece(ps, i as int, pos + len);
            }
            lemma_tallied_none(seen);
        }
        let plen = p.len();
        let pstart = cursor;
        let pend = cursor + plen;
        if pend <= delete_start || pstart >= delete_end {
            out.push(p);
            proof {
                assert(out@ =~= before + seq![p]);
                lemma_marks_add(before, seq![p]);
                lemma_marks_one(p);
            }
        } else {
            if delete_start > pstart {
                let keep = delete_start - pstart;
                let left = Piece { buffer: p.buffer, start: p.start, end: p.start + keep };
                out.push(left);
                stats.note_split();
                proof {
                    assert(out@ =~= before + seq![left]);
                    lemma_marks_add(before, seq![left]);
                    lemma_marks_one(left);
                    lemma_tallied_trans(counts, seen, *stats, splits, 0, 0, 1, 0, 0);
                }
            }
            if delete_end < pend {
                let keep_from = delete_end - pstart;
                let right = Piece { buffer: p.buffer, start: p.start + keep_from, end: p.end };
                let ghost mid = out@;
                let ghost noted = *stats;
                out.push(right);
                stats.note_split();
                proof {
                    assert(out@ =~= mid + seq![right]);
                    lemma_marks_add(mid, seq![right]);
                    lemma_marks_one(right);
                    let k = splits + one_if(delete_start > pstart);
                    lemma_tallied_trans(counts, noted, *stats, k, 0, 0, 1, 0, 0);
                }
            }
        }
        cursor = pend;
    }
    proof {
        assert(ps.take(ps.len() as int) =~= ps);
        assert(kept(m, pos as int, pos + len) =~= cut(m, pos as int, len as int));
        lemma_heads_of(out@);
    }
    let ghost all = out@;
    let ghost seen = *stats;
    *pieces = out;
    coalesce_all(pieces, stats);
    proof {
        let splits = one_if(inside(m, pos as int)) + one_if(inside(m, pos + len));
        let n = all.len() - pieces@.len();
        lemma_tallied_trans(counts, seen, *stats, splits, 0, 0, 0, n, n);
    }
}

pub(crate) proof fn lemma_heads_headed(m: Seq<Mark>)
    ensures
        heads(headed(m)) == heads(m) + one_if(m.len() > 0 && !m[0].head),
{
    if m.len() > 0 {
        let n = headed(m);
        assert(m =~= seq![m[0]] + m.skip(1));
        assert(n =~= seq![n[0]] + m.skip(1));
        lemma_heads_add(seq![m[0]], m.skip(1));
        lemma_heads_add(seq![n[0]], m.skip(1));
        reveal_with_fuel(heads, 2);
    }
}

pub(crate) proof fn lemma_heads_splice(m: Seq<Mark>, pos: int, x: Seq<Mark>)
    requires
        0 <= pos <= m.len(),
        opens(m),
    ensures
        heads(splice(m, pos, x)) == heads(m) + heads(x) + one_if(inside(m, pos)),
{
    lemma_heads_add(m.take(pos) + x, headed(m.skip(pos)));
    lemma_heads_add(m.take(pos), x);
    lemma_heads_headed(m.skip(pos));
    lemma_heads_add(m.take(pos), m.skip(pos));
    assert(m.take(pos) + m.skip(pos) =~= m);
}

/// Taking elements out leaves at most one piece more, and no more if the range begins or ends where
/// a piece does.
pub(crate) proof fn lemma_heads_cut(m: Seq<Mark>, pos: int, len: int)
    requires
        0 <= pos,
        0 < len,
        pos + len <= m.len(),
        opens(m),
    ensures
        heads(cut(m, pos, len)) <= heads(m) + 1,
        !(inside(m, pos) && inside(m, pos + len)) ==> heads(cut(m, pos, len)) <= heads(m),
{
    let a = m.take(pos);
    let b = m.subrange(pos, pos + len);
    let c = m.skip(pos + len);
    assert(m =~= a + b + c);
    lemma_heads_add(a + b, c);
    lemma_heads_add(a, b);
    lemma_heads_add(a, headed(c));
    lemma_heads_headed(c);
    if !inside(m, pos) {
        assert(b[0] == m[pos]);
        assert(b =~= seq![b[0]] + b.skip(1));
        lemma_heads_add(seq![b[0]], b.skip(1));
        reveal_with_fuel(heads, 2);
    }
    if c.len() > 0 {
        assert(c[0] == m[pos + len]);
    }
}

/// Merging pieces leaves no more of them.
pub(crate) proof fn lemma_heads_fused(a: Seq<Mark>, b: Seq<Mark>)
    requires
        fused(a, b),
    ensures
        heads(b) <= heads(a),
    decreases a.len(),
{
    if a.len() > 0 {
        assert(fused(a.drop_last(), b.drop_last()));
        lemma_heads_fused(a.drop_last(), b.drop_last());
        assert(a[a.len() - 1].head || !b[b.len() - 1].head);
    }
}

} // verus!
