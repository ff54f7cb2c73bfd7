//! Pieces, and what a list of pieces says about a document.
//!
//! A document is a sequence of elements, each held at some index of one of two append-only
//! buffers. A [`Piece`] names a run of such indices. The model of a list of pieces is its
//! sequence of [`Mark`]s: one mark for each element, which says where the element is held and
//! whether a piece begins with it.
use vstd::prelude::*;

verus! {

/// Identifies which underlying immutable buffer a piece references.
#[derive(Clone, Copy, Debug, PartialEq, Eq, Structural)]
pub enum BufferKind {
    File,
    Add,
}

/// The elements of one buffer from index `start` up to, but not including, `end`.
#[derive(Clone, Copy, Debug, PartialEq, Eq, Structural)]
pub struct Piece {
    pub buffer: BufferKind,
    pub start: usize,
    pub end: usize,
}

impl Piece {
    pub fn len(&self) -> (n: usize)
        requires
            self.start <= self.end,
        ensures
            n == self.end - self.start,
    {
        self.end - self.start
    }

    pub open spec fn marks(self) -> Seq<Mark> {
        run(self.buffer, self.start as int, self.end as int, true)
    }

    /// A piece that stands for at least one element.
    pub open spec fn sound(self) -> bool {
        self.start < self.end
    }
}

/// One element of a document: it is held at index `at` of `buffer`, and a piece begins with it
/// exactly when `head` is set.
pub struct Mark {
    pub buffer: BufferKind,
    pub at: int,
    pub head: bool,
}

/// The marks of a run of buffer indices, of which the first is a head when `head` is set.
pub open spec fn run(buffer: BufferKind, start: int, end: int, head: bool) -> Seq<Mark> {
    Seq::new(
        (end - start) as nat,
        |i: int| Mark { buffer, at: start + i, head: head && i == 0 },
    )
}

pub open spec fn all_sound(ps: Seq<Piece>) -> bool {
    forall|i: int| 0 <= i < ps.len() ==> (#[trigger] ps[i]).sound()
}

/// No piece ends before it begins.
pub open spec fn all_ordered(ps: Seq<Piece>) -> bool {
    forall|i: int| 0 <= i < ps.len() ==> (#[trigger] ps[i]).start <= ps[i].end
}

/// The marks of a list of pieces, in order.
pub open spec fn marks_of(ps: Seq<Piece>) -> Seq<Mark>
    decreases ps.len(),
{
    if ps.len() == 0 {
        Seq::empty()
    } else {
        marks_of(ps.drop_last()) + ps.last().marks()
    }
}

/// How many pieces `m` is made of.
pub open spec fn heads(m: Seq<Mark>) -> nat
    decreases m.len(),
{
    if m.len() == 0 {
        0
    } else {
        heads(m.drop_last()) + (if m.last().head {
            1nat
        } else {
            0nat
        })
    }
}

/// The element at `k` lies in the same buffer as the one before it, at the next index.
pub open spec fn joined(m: Seq<Mark>, k: int) -> bool {
    &&& 0 < k < m.len()
    &&& m[k].buffer == m[k - 1].buffer
    &&& m[k].at == m[k - 1].at + 1
}

/// No piece could be merged with the one before it.
pub open spec fn settled(m: Seq<Mark>) -> bool {
    forall|k: int| 0 <= k < m.len() && m[k].head ==> !#[trigger] joined(m, k)
}

/// Where no piece begins, the element continues the one before it.
pub open spec fn coherent(m: Seq<Mark>) -> bool {
    forall|k: int| 0 < k < m.len() && !m[k].head ==> #[trigger] joined(m, k)
}

/// No element of a buffer occurs twice.
pub open spec fn distinct(m: Seq<Mark>) -> bool {
    forall|i: int, j: int|
        #![trigger m[i], m[j]]
        0 <= i < j < m.len() ==> m[i].buffer != m[j].buffer || m[i].at != m[j].at
}

/// A piece begins where `m` begins.
pub open spec fn opens(m: Seq<Mark>) -> bool {
    m.len() > 0 ==> m[0].head
}

/// `m`, with a piece beginning where `m` begins.
pub open spec fn headed(m: Seq<Mark>) -> Seq<Mark> {
    if m.len() == 0 {
        m
    } else {
        m.update(0, Mark { head: true, ..m[0] })
    }
}

/// `m` with `x` put in before position `pos`.
pub open spec fn splice(m: Seq<Mark>, pos: int, x: Seq<Mark>) -> Seq<Mark> {
    m.take(pos) + x + headed(m.skip(pos))
}

/// `m` without the `len` elements from position `pos` on.
pub open spec fn cut(m: Seq<Mark>, pos: int, len: int) -> Seq<Mark> {
    m.take(pos) + headed(m.skip(pos + len))
}

/// Position `pos` is inside a piece: neither the first position of one nor an end of `m`.
pub open spec fn inside(m: Seq<Mark>, pos: int) -> bool {
    0 < pos < m.len() && !m[pos].head
}

/// `b` holds the elements of `a`, with some neighbouring pieces merged into one.
pub open spec fn fused(a: Seq<Mark>, b: Seq<Mark>) -> bool {
    &&& a.len() == b.len()
    &&& forall|k: int|
        #![trigger a[k]]
        #![trigger b[k]]
        0 <= k < a.len() ==> {
            &&& a[k].buffer == b[k].buffer
            &&& a[k].at == b[k].at
            &&& b[k].head ==> a[k].head
        }
}

/// `right` holds the elements that follow those of `left` in the same buffer.
pub open spec fn continues(left: Piece, right: Piece) -> bool {
    left.buffer == right.buffer && left.end == right.start
}

/// Pieces `i` and `i + 1` could be one piece.
pub open spec fn loose(ps: Seq<Piece>, i: int) -> bool {
    continues(ps[i], ps[i + 1])
}

/// No two neighbouring pieces could be one piece.
pub open spec fn tidy(ps: Seq<Piece>) -> bool {
    forall|i: int| 0 <= i < ps.len() - 1 ==> !#[trigger] loose(ps, i)
}

/// No two neighbouring pieces could be one piece, except perhaps the pairs `i` and `j`.
pub open spec fn tidy_except(ps: Seq<Piece>, i: int, j: int) -> bool {
    forall|k: int| 0 <= k < ps.len() - 1 && k != i && k != j ==> !#[trigger] loose(ps, k)
}

/// `ps` with piece `i + 1` merged into piece `i`.
pub open spec fn merge_at(ps: Seq<Piece>, i: int) -> Seq<Piece> {
    ps.update(i, Piece { end: ps[i + 1].end, ..ps[i] }).remove(i + 1)
}

pub proof fn lemma_marks_add(a: Seq<Piece>, b: Seq<Piece>)
    ensures
        marks_of(a + b) == marks_of(a) + marks_of(b),
    decreases b.len(),
{
    if b.len() == 0 {
        assert(a + b =~= a);
    } else {
        lemma_marks_add(a, b.drop_last());
        assert((a + b).drop_last() =~= a + b.drop_last());
        assert((a + b).last() == b.last());
        assert(marks_of(a) + marks_of(b) =~= (marks_of(a) + marks_of(b.drop_last()))
            + b.last().marks());
    }
}

pub proof fn lemma_marks_one(p: Piece)
    ensures
        marks_of(seq![p]) == p.marks(),
{
    reveal_with_fuel(marks_of, 2);
    assert(seq![p].drop_last() =~= Seq::empty());
    assert(marks_of(seq![p]) =~= p.marks());
}

pub proof fn lemma_marks_split(ps: Seq<Piece>, i: int)
    requires
        0 <= i <= ps.len(),
    ensures
        marks_of(ps) == marks_of(ps.take(i)) + marks_of(ps.skip(i)),
{
    assert(ps =~= ps.take(i) + ps.skip(i));
    lemma_marks_add(ps.take(i), ps.skip(i));
}

pub proof fn lemma_marks_at(ps: Seq<Piece>, i: int)
    requires
        0 <= i < ps.len(),
    ensures
        marks_of(ps) == marks_of(ps.take(i)) + ps[i].marks() + marks_of(ps.skip(i + 1)),
        marks_of(ps.take(i + 1)) == marks_of(ps.take(i)) + ps[i].marks(),
        marks_of(ps.skip(i)) == ps[i].marks() + marks_of(ps.skip(i + 1)),
{
    lemma_marks_split(ps, i + 1);
    assert(ps.take(i + 1).drop_last() =~= ps.take(i));
    assert(ps.skip(i) =~= seq![ps[i]] + ps.skip(i + 1));
    lemma_marks_add(seq![ps[i]], ps.skip(i + 1));
    lemma_marks_one(ps[i]);
}

pub proof fn lemma_marks_opens(ps: Seq<Piece>)
    requires
        all_sound(ps),
    ensures
        opens(marks_of(ps)),
        marks_of(ps).len() >= ps.len(),
        marks_of(ps).len() == 0 <==> ps.len() == 0,
    decreases ps.len(),
{
    if ps.len() > 0 {
        lemma_marks_opens(ps.drop_last());
        assert(ps.last().sound());
    }
}

pub proof fn lemma_coherent_add(a: Seq<Mark>, b: Seq<Mark>)
    requires
        coherent(a),
        coherent(b),
        opens(b),
    ensures
        coherent(a + b),
{
    let m = a + b;
    assert forall|k: int| 0 < k < m.len() && !(#[trigger] m[k]).head implies joined(m, k) by {
        if k < a.len() {
            assert(m[k] == a[k]);
            assert(m[k - 1] == a[k - 1]);
            assert(joined(a, k));
        } else if k > a.len() {
            assert(m[k] == b[k - a.len()]);
            assert(m[k - 1] == b[k - 1 - a.len()]);
            assert(joined(b, k - a.len()));
        } else {
            assert(m[k] == b[0]);
        }
    }
}

pub proof fn lemma_marks_coherent(ps: Seq<Piece>)
    requires
        all_sound(ps),
    ensures
        coherent(marks_of(ps)),
    decreases ps.len(),
{
    if ps.len() > 0 {
        assert(ps.last().sound());
        lemma_marks_coherent(ps.drop_last());
        lemma_coherent_add(marks_of(ps.drop_last()), ps.last().marks());
    }
}

/// The end of piece `i` is within the document.
pub proof fn lemma_marks_prefix(ps: Seq<Piece>, i: int)
    requires
        all_ordered(ps),
        0 <= i < ps.len(),
    ensures
        marks_of(ps.take(i)).len() + (ps[i].end - ps[i].start) == marks_of(ps.take(i + 1)).len(),
        marks_of(ps.take(i + 1)).len() <= marks_of(ps).len(),
{
    lemma_marks_at(ps, i);
}

pub proof fn lemma_heads_add(a: Seq<Mark>, b: Seq<Mark>)
    ensures
        heads(a + b) == heads(a) + heads(b),
    decreases b.len(),
{
    if b.len() == 0 {
        assert(a + b =~= a);
    } else {
        lemma_heads_add(a, b.drop_last());
        assert((a + b).drop_last() =~= a + b.drop_last());
        assert((a + b).last() == b.last());
    }
}

proof fn lemma_heads_run(buffer: BufferKind, start: int, end: int, head: bool)
    requires
        start < end,
    ensures
        heads(run(buffer, start, end, head)) == (if head {
            1nat
        } else {
            0nat
        }),
    decreases end - start,
{
    let m = run(buffer, start, end, head);
    assert(m.drop_last() =~= run(buffer, start, end - 1, head));
    if end - start > 1 {
        lemma_heads_run(buffer, start, end - 1, head);
    } else {
        assert(m.drop_last() =~= Seq::empty());
        reveal_with_fuel(heads, 2);
    }
}

pub proof fn lemma_heads_of(ps: Seq<Piece>)
    requires
        all_sound(ps),
    ensures
        heads(marks_of(ps)) == ps.len(),
    decreases ps.len(),
{
    if ps.len() > 0 {
        let p = ps.last();
        assert(p.sound());
        lemma_heads_of(ps.drop_last());
        lemma_heads_run(p.buffer, p.start as int, p.end as int, true);
        lemma_heads_add(marks_of(ps.drop_last()), p.marks());
    }
}

pub proof fn lemma_settled_add(a: Seq<Mark>, b: Seq<Mark>)
    ensures
        settled(a + b) <==> settled(a) && settled(b) && (b.len() > 0 && b[0].head ==> !joined(
            a + b,
            a.len() as int,
        )),
{
    let m = a + b;
    if settled(m) {
        assert forall|k: int| 0 <= k < a.len() && (#[trigger] a[k]).head implies !joined(a, k) by {
            assert(m[k] == a[k]);
            assert(!joined(m, k));
            if k > 0 {
                assert(m[k - 1] == a[k - 1]);
            }
        }
        assert forall|k: int| 0 <= k < b.len() && (#[trigger] b[k]).head implies !joined(b, k) by {
            assert(m[k + a.len()] == b[k]);
            assert(!joined(m, k + a.len()));
            if k > 0 {
                assert(m[k + a.len() - 1] == b[k - 1]);
            }
        }
        if b.len() > 0 {
            assert(m[a.len() as int] == b[0]);
        }
    }
    if settled(a) && settled(b) && (b.len() > 0 && b[0].head ==> !joined(m, a.len() as int)) {
        assert forall|k: int| 0 <= k < m.len() && (#[trigger] m[k]).head implies !joined(m, k) by {
            if k < a.len() {
                assert(m[k] == a[k]);
                assert(!joined(a, k));
                if k > 0 {
                    assert(m[k - 1] == a[k - 1]);
                }
            } else if k > a.len() {
                assert(m[k] == b[k - a.len()]);
                assert(!joined(b, k - a.len()));
                assert(m[k - 1] == b[k - 1 - a.len()]);
            } else {
                assert(m[k] == b[0]);
            }
        }
    }
}

pub proof fn lemma_tidy_settled(ps: Seq<Piece>)
    requires
        all_sound(ps),
    ensures
        tidy(ps) <==> settled(marks_of(ps)),
    decreases ps.len(),
{
    if ps.len() > 0 {
        let front = ps.drop_last();
        let a = marks_of(front);
        let b = ps.last().marks();
        assert(ps.last().sound());
        lemma_tidy_settled(front);
        lemma_settled_add(a, b);
        assert(settled(b));
        if ps.len() > 1 {
            let n = ps.len() as int;
            let prev = ps[n - 2];
            assert(prev.sound());
            assert(front.last() == prev);
            assert(a.last() == prev.marks().last());
            assert(joined(a + b, a.len() as int) <==> loose(ps, n - 2)) by {
                assert((a + b)[a.len() as int] == b[0]);
                assert((a + b)[a.len() - 1] == a.last());
            }
            if tidy(front) && !loose(ps, n - 2) {
                assert forall|i: int| 0 <= i < ps.len() - 1 implies !#[trigger] loose(ps, i) by {
                    if i < n - 2 {
                        assert(!loose(front, i));
                    }
                }
            }
            if tidy(ps) {
                assert forall|i: int| 0 <= i < front.len() - 1 implies !#[trigger] loose(
                    front,
                    i,
                ) by {
                    assert(!loose(ps, i));
                }
            }
        }
    }
}

pub proof fn lemma_fused_trans(a: Seq<Mark>, b: Seq<Mark>, c: Seq<Mark>)
    requires
        fused(a, b),
        fused(b, c),
    ensures
        fused(a, c),
{
    assert forall|k: int|
        #![trigger a[k]]
        #![trigger c[k]]
        0 <= k < a.len() implies a[k].buffer == c[k].buffer && a[k].at == c[k].at && (c[k].head
        ==> a[k].head) by {
        assert(b[k].at == a[k].at);
    }
}

pub proof fn lemma_fused_add(a: Seq<Mark>, b: Seq<Mark>, c: Seq<Mark>, d: Seq<Mark>)
    requires
        fused(a, b),
        fused(c, d),
    ensures
        fused(a + c, b + d),
{
}

pub proof fn lemma_fused_cut(a: Seq<Mark>, b: Seq<Mark>, pos: int, len: int)
    requires
        fused(a, b),
        0 <= pos,
        0 <= len,
        pos + len <= a.len(),
    ensures
        fused(cut(a, pos, len), cut(b, pos, len)),
{
    assert(fused(a.take(pos), b.take(pos)));
    assert(fused(headed(a.skip(pos + len)), headed(b.skip(pos + len))));
}

/// Cutting twice at one position is cutting once.
pub proof fn lemma_cut_cut(m: Seq<Mark>, pos: int, l1: int, l2: int)
    requires
        0 <= pos,
        0 <= l1,
        0 <= l2,
        pos + l1 + l2 <= m.len(),
    ensures
        cut(cut(m, pos, l1), pos, l2) == cut(m, pos, l1 + l2),
{
    let a = cut(m, pos, l1);
    assert(a.take(pos) =~= m.take(pos));
    assert(a.skip(pos) =~= headed(m.skip(pos + l1)));
    if l2 == 0 {
        assert(headed(a.skip(pos)) =~= headed(m.skip(pos + l1)));
    } else {
        assert(a.skip(pos + l2) =~= m.skip(pos + l1 + l2));
    }
}

/// A splice into the middle part of a sequence leaves the other parts alone.
pub proof fn lemma_splice_within(
    a: Seq<Mark>,
    b: Seq<Mark>,
    c: Seq<Mark>,
    pos: int,
    x: Seq<Mark>,
)
    requires
        0 <= pos <= b.len(),
        opens(c),
    ensures
        splice(a + b + c, a.len() + pos, x) == a + splice(b, pos, x) + c,
{
    let m = a + b + c;
    let at = a.len() + pos;
    assert(m.take(at) =~= a + b.take(pos));
    if pos < b.len() {
        assert(headed(m.skip(at)) =~= headed(b.skip(pos)) + c);
    } else {
        assert(headed(m.skip(at)) =~= c);
        assert(headed(b.skip(pos)) =~= Seq::empty());
    }
    assert(splice(m, at, x) =~= a + splice(b, pos, x) + c);
}

/// A cut in the middle part of a sequence leaves the other parts alone.
pub proof fn lemma_cut_within(a: Seq<Mark>, b: Seq<Mark>, c: Seq<Mark>, pos: int, len: int)
    requires
        0 <= pos,
        0 <= len,
        pos + len <= b.len(),
        opens(c),
    ensures
        cut(a + b + c, a.len() + pos, len) == a + cut(b, pos, len) + c,
{
    let m = a + b + c;
    let at = a.len() + pos;
    assert(m.take(at) =~= a + b.take(pos));
    if pos + len < b.len() {
        assert(headed(m.skip(at + len)) =~= headed(b.skip(pos + len)) + c);
    } else {
        assert(headed(m.skip(at + len)) =~= c);
        assert(headed(b.skip(pos + len)) =~= Seq::empty());
    }
    assert(cut(m, at, len) =~= a + cut(b, pos, len) + c);
}

/// A splice between two pieces that it does not continue, or into a piece, leaves nothing to
/// merge.
pub proof fn lemma_splice_settled(m: Seq<Mark>, pos: int, x: Seq<Mark>)
    requires
        settled(m),
        settled(x),
        0 <= pos <= m.len(),
        x.len() > 0,
        !joined(splice(m, pos, x), pos),
        !joined(splice(m, pos, x), pos + x.len()),
    ensures
        settled(splice(m, pos, x)),
{
    let s = splice(m, pos, x);
    let n = x.len();
    assert forall|k: int| 0 <= k < s.len() && (#[trigger] s[k]).head implies !joined(s, k) by {
        if k < pos {
            assert(s[k] == m[k]);
            assert(!joined(m, k));
            if k > 0 {
                assert(s[k - 1] == m[k - 1]);
            }
        } else if pos < k < pos + n {
            assert(s[k] == x[k - pos]);
            assert(!joined(x, k - pos));
            assert(s[k - 1] == x[k - 1 - pos]);
        } else if k > pos + n {
            assert(s[k] == m[k - n]);
            assert(!joined(m, k - n));
            assert(s[k - 1].at == m[k - 1 - n].at);
            assert(s[k - 1].buffer == m[k - 1 - n].buffer);
        }
    }
}

/// Merging a piece with the one that it continues keeps every element.
pub proof fn lemma_merge_at(ps: Seq<Piece>, i: int)
    requires
        all_sound(ps),
        0 <= i < ps.len() - 1,
        loose(ps, i),
    ensures
        all_sound(merge_at(ps, i)),
        merge_at(ps, i).len() == ps.len() - 1,
        fused(marks_of(ps), marks_of(merge_at(ps, i))),
{
    let q = merge_at(ps, i);
    let l = ps[i];
    let r = ps[i + 1];
    let one = Piece { end: r.end, ..l };
    assert(l.sound() && r.sound());
    assert forall|k: int| 0 <= k < q.len() implies (#[trigger] q[k]).sound() by {
        if k < i {
            assert(ps[k].sound());
        } else if k > i {
            assert(ps[k + 1].sound());
        }
    }
    lemma_marks_at(ps, i);
    lemma_marks_at(ps, i + 1);
    lemma_marks_at(q, i);
    assert(q.take(i) =~= ps.take(i));
    assert(q.skip(i + 1) =~= ps.skip(i + 2));
    assert(q[i] == one);
    let a = marks_of(ps.take(i));
    let c = marks_of(ps.skip(i + 2));
    assert(marks_of(ps) =~= a + (l.marks() + r.marks()) + c);
    assert(fused(l.marks() + r.marks(), one.marks()));
    lemma_fused_add(a, a, l.marks() + r.marks(), one.marks());
    lemma_fused_add(a + (l.marks() + r.marks()), a + one.marks(), c, c);
}

} // verus!
