//! The text that marks stand for, and what edits do to it.
use vstd::prelude::*;

use crate::edit::{ends_at, grown};
use crate::piece::{
    coherent, cut, distinct, fused, headed, joined, lemma_splice_settled, opens, run, settled,
    splice, BufferKind, Mark,
};

verus! {

/// The element that `k` stands for.
pub open spec fn pick<T>(k: Mark, original: Seq<T>, add: Seq<T>) -> T {
    match k.buffer {
        BufferKind::File => original[k.at],
        BufferKind::Add => add[k.at],
    }
}

/// The elements that `m` stands for.
pub open spec fn text<T>(m: Seq<Mark>, original: Seq<T>, add: Seq<T>) -> Seq<T> {
    Seq::new(m.len(), |i: int| pick(m[i], original, add))
}

/// Every mark is at an index of its buffer.
pub open spec fn within(m: Seq<Mark>, file_len: int, add_len: int) -> bool {
    forall|k: int|
        0 <= k < m.len() ==> 0 <= (#[trigger] m[k]).at < (match m[k].buffer {
            BufferKind::File => file_len,
            BufferKind::Add => add_len,
        })
}

/// `after` is `before` with clones of the elements of `data` put in before position `pos`.
pub open spec fn inserted<T: Clone>(
    before: Seq<T>,
    pos: int,
    data: Seq<T>,
    after: Seq<T>,
) -> bool {
    &&& after.len() == before.len() + data.len()
    &&& after.take(pos) == before.take(pos)
    &&& forall|i: int| 0 <= i < data.len() ==> cloned(data[i], #[trigger] after[pos + i])
    &&& after.skip(pos + data.len()) == before.skip(pos)
}

/// `before` without the `len` elements from position `pos` on.
pub open spec fn removed<T>(before: Seq<T>, pos: int, len: int) -> Seq<T> {
    before.take(pos) + before.skip(pos + len)
}

/// A clone of a `T` is the `T` itself.
pub open spec fn clones_are_equal<T: Clone>() -> bool {
    forall|a: T, b: T| #[trigger] cloned(a, b) ==> a == b
}

/// All clones of one `T` are the same.
pub open spec fn clones_are_alike<T: Clone>() -> bool {
    forall|a: T, b: T, c: T|
        #![trigger cloned(a, b), cloned(a, c)]
        cloned(a, b) && cloned(a, c) ==> b == c
}

/// The elements of `m` with those of a new run put in before position `pos`, whatever becomes of
/// the pieces.
pub open spec fn holds_run(m: Seq<Mark>, pos: int, start: int, end: int, n: Seq<Mark>) -> bool {
    &&& n.len() == m.len() + (end - start)
    &&& forall|k: int|
        0 <= k < n.len() ==> {
            let was = if k < pos {
                (m[k].buffer, m[k].at)
            } else if k < pos + (end - start) {
                (BufferKind::Add, start + (k - pos))
            } else {
                (m[k - (end - start)].buffer, m[k - (end - start)].at)
            };
            (#[trigger] n[k]).buffer == was.0 && n[k].at == was.1
        }
}

pub proof fn lemma_fused_text<T>(a: Seq<Mark>, b: Seq<Mark>, original: Seq<T>, add: Seq<T>)
    requires
        fused(a, b),
    ensures
        text(a, original, add) == text(b, original, add),
{
    assert(text(a, original, add) =~= text(b, original, add));
}

pub proof fn lemma_fused_kept(a: Seq<Mark>, b: Seq<Mark>, file_len: int, add_len: int)
    requires
        fused(a, b),
        within(a, file_len, add_len),
        distinct(a),
    ensures
        within(b, file_len, add_len),
        distinct(b),
{
    assert forall|k: int| 0 <= k < b.len() implies 0 <= (#[trigger] b[k]).at < (match b[k].buffer {
        BufferKind::File => file_len,
        BufferKind::Add => add_len,
    }) by {
        assert(a[k].at == b[k].at);
    }
    assert forall|i: int, j: int|
        #![trigger b[i], b[j]]
        0 <= i < j < b.len() implies b[i].buffer != b[j].buffer || b[i].at != b[j].at by {
        assert(a[i].at == b[i].at);
        assert(a[j].at == b[j].at);
    }
}

/// Merging pieces leaves the elements as they are.
pub proof fn lemma_fused_holds(
    m: Seq<Mark>,
    pos: int,
    start: int,
    end: int,
    a: Seq<Mark>,
    b: Seq<Mark>,
)
    requires
        holds_run(m, pos, start, end, a),
        fused(a, b),
    ensures
        holds_run(m, pos, start, end, b),
{
    assert forall|k: int| 0 <= k < b.len() implies ({
        let was = if k < pos {
            (m[k].buffer, m[k].at)
        } else if k < pos + (end - start) {
            (BufferKind::Add, start + (k - pos))
        } else {
            (m[k - (end - start)].buffer, m[k - (end - start)].at)
        };
        (#[trigger] b[k]).buffer == was.0 && b[k].at == was.1
    }) by {
        assert(a[k].at == b[k].at);
    }
}

/// Two ways to divide the same elements into pieces that cannot be merged are one.
pub proof fn lemma_settled_equal(a: Seq<Mark>, b: Seq<Mark>)
    requires
        a.len() == b.len(),
        forall|k: int|
            0 <= k < a.len() ==> (#[trigger] a[k]).buffer == b[k].buffer && a[k].at == b[k].at,
        settled(a),
        coherent(a),
        opens(a),
        settled(b),
        coherent(b),
        opens(b),
    ensures
        a == b,
{
    assert forall|k: int| 0 <= k < a.len() implies #[trigger] a[k] == b[k] by {
        if k > 0 {
            assert(a[k - 1].at == b[k - 1].at);
            assert(joined(a, k) == joined(b, k));
        }
    }
    assert(a =~= b);
}

/// Where nothing can be merged, nothing was.
pub proof fn lemma_fused_equal(a: Seq<Mark>, b: Seq<Mark>)
    requires
        fused(a, b),
        settled(a),
        coherent(b),
        opens(a),
        opens(b),
    ensures
        a == b,
{
    assert forall|k: int| 0 <= k < a.len() implies a[k] == #[trigger] b[k] by {
        if k > 0 && a[k].head && !b[k].head {
            assert(joined(b, k));
            assert(a[k - 1].at == b[k - 1].at);
            assert(joined(a, k));
        }
    }
    assert(a =~= b);
}

/// What a document holds once a run of new elements was put in as a piece of its own.
pub proof fn lemma_splice_holds(m: Seq<Mark>, pos: int, start: int, end: int)
    requires
        0 <= pos <= m.len(),
        start < end,
    ensures
        holds_run(m, pos, start, end, splice(m, pos, run(BufferKind::Add, start, end, true))),
{
    let x = run(BufferKind::Add, start, end, true);
    let s = splice(m, pos, x);
    let n = end - start;
    assert forall|k: int| 0 <= k < s.len() implies ({
        let was = if k < pos {
            (m[k].buffer, m[k].at)
        } else if k < pos + n {
            (BufferKind::Add, start + (k - pos))
        } else {
            (m[k - n].buffer, m[k - n].at)
        };
        (#[trigger] s[k]).buffer == was.0 && s[k].at == was.1
    }) by {
        if k < pos {
            assert(s[k] == m[k]);
        } else if k < pos + n {
            assert(s[k] == x[k - pos]);
        } else {
            assert(s[k] == headed(m.skip(pos))[k - pos - n]);
        }
    }
}

/// A run of new elements put in as a piece of its own.
pub proof fn lemma_splice_run(m: Seq<Mark>, pos: int, start: int, end: int)
    requires
        0 <= pos <= m.len(),
        start < end,
        settled(m),
        coherent(m),
        exists|file_len: int| within(m, file_len, start),
        !ends_at(m, pos, BufferKind::Add, start),
    ensures
        holds_run(m, pos, start, end, splice(m, pos, run(BufferKind::Add, start, end, true))),
        settled(splice(m, pos, run(BufferKind::Add, start, end, true))),
{
    let x = run(BufferKind::Add, start, end, true);
    let s = splice(m, pos, x);
    let n = end - start;
    let file_len = choose|file_len: int| within(m, file_len, start);
    lemma_splice_holds(m, pos, start, end);
    if joined(s, pos) {
        assert(s[pos - 1] == m[pos - 1]);
        assert(s[pos] == x[0]);
        if pos < m.len() && !m[pos].head {
            assert(joined(m, pos));
            assert(m[pos].at < start);
        }
    }
    if joined(s, pos + n) {
        assert(s[pos + n - 1] == x[n - 1]);
        assert(m[pos].at < start);
    }
    lemma_splice_settled(m, pos, x);
}

/// A run of new elements put in by growing a piece.
pub proof fn lemma_grown_run(m: Seq<Mark>, pos: int, start: int, end: int)
    requires
        0 < pos <= m.len(),
        start < end,
        settled(m),
        exists|file_len: int| within(m, file_len, start),
    ensures
        holds_run(m, pos, start, end, grown(m, pos, BufferKind::Add, start, end)),
        settled(grown(m, pos, BufferKind::Add, start, end)),
{
    let x = run(BufferKind::Add, start, end, false);
    let s = grown(m, pos, BufferKind::Add, start, end);
    let n = end - start;
    let file_len = choose|file_len: int| within(m, file_len, start);
    assert forall|k: int| 0 <= k < s.len() && (#[trigger] s[k]).head implies !joined(s, k) by {
        if k < pos {
            assert(s[k] == m[k]);
            if k > 0 {
                assert(s[k - 1] == m[k - 1]);
                assert(!joined(m, k));
            }
        } else if k < pos + n {
            assert(s[k] == x[k - pos]);
        } else {
            assert(s[k] == m[k - n]);
            if k > pos + n {
                assert(s[k - 1] == m[k - 1 - n]);
                assert(!joined(m, k - n));
            } else {
                assert(s[k - 1] == x[n - 1]);
                assert(m[pos].buffer == BufferKind::Add ==> m[pos].at < start);
            }
        }
    }
}

/// What the text becomes when a run of new elements is put in.
pub proof fn lemma_holds_run<T: Clone>(
    m: Seq<Mark>,
    pos: int,
    n: Seq<Mark>,
    original: Seq<T>,
    add: Seq<T>,
    add_after: Seq<T>,
    data: Seq<T>,
)
    requires
        0 <= pos <= m.len(),
        holds_run(m, pos, add.len() as int, add_after.len() as int, n),
        within(m, original.len() as int, add.len() as int),
        distinct(m),
        add_after.len() == add.len() + data.len(),
        forall|i: int| 0 <= i < add.len() ==> #[trigger] add_after[i] == add[i],
        forall|i: int| 0 <= i < data.len() ==> cloned(data[i], #[trigger] add_after[add.len() + i]),
    ensures
        inserted(text(m, original, add), pos, data, text(n, original, add_after)),
        within(n, original.len() as int, add_after.len() as int),
        distinct(n),
{
    let before = text(m, original, add);
    let after = text(n, original, add_after);
    let d = data.len();
    assert forall|k: int| 0 <= k < pos implies after[k] == before[k] by {
        assert(n[k].at == m[k].at);
    }
    assert(after.take(pos) =~= before.take(pos));
    assert forall|k: int| pos <= k < m.len() implies after[k + d] == before[k] by {
        assert(n[k + d].at == m[k].at);
    }
    assert(after.skip(pos + d) =~= before.skip(pos));
    assert forall|i: int| 0 <= i < d implies cloned(data[i], #[trigger] after[pos + i]) by {
        assert(n[pos + i].at == add.len() + i);
        assert(cloned(data[i], add_after[add.len() + i]));
    }
    assert forall|k: int| 0 <= k < n.len() implies 0 <= (#[trigger] n[k]).at < (match n[k].buffer {
        BufferKind::File => original.len() as int,
        BufferKind::Add => add_after.len() as int,
    }) by {
        if k < pos {
            assert(0 <= m[k].at);
        } else if k >= pos + d {
            assert(0 <= m[k - d].at);
        }
    }
    assert forall|i: int, j: int|
        #![trigger n[i], n[j]]
        0 <= i < j < n.len() implies n[i].buffer != n[j].buffer || n[i].at != n[j].at by {
        let i0 = if i < pos {
            i
        } else {
            i - d
        };
        let j0 = if j < pos {
            j
        } else {
            j - d
        };
        if !(pos <= i < pos + d) {
            assert(0 <= m[i0].at);
        }
        if !(pos <= j < pos + d) {
            assert(0 <= m[j0].at);
        }
    }
}

/// What becomes of the text when elements are taken out.
pub proof fn lemma_cut_text<T>(
    m: Seq<Mark>,
    pos: int,
    len: int,
    original: Seq<T>,
    add: Seq<T>,
)
    requires
        0 <= pos,
        0 <= len,
        pos + len <= m.len(),
        within(m, original.len() as int, add.len() as int),
        distinct(m),
    ensures
        text(cut(m, pos, len), original, add) == removed(text(m, original, add), pos, len),
        within(cut(m, pos, len), original.len() as int, add.len() as int),
        distinct(cut(m, pos, len)),
{
    let c = cut(m, pos, len);
    let before = text(m, original, add);
    assert forall|k: int| 0 <= k < c.len() implies ({
        let j = if k < pos {
            k
        } else {
            k + len
        };
        (#[trigger] c[k]).buffer == m[j].buffer && c[k].at == m[j].at
    }) by {
        if k >= pos {
            assert(c[k] == headed(m.skip(pos + len))[k - pos]);
        }
    }
    assert(text(c, original, add) =~= removed(before, pos, len));
    assert forall|k: int| 0 <= k < c.len() implies 0 <= (#[trigger] c[k]).at < (match c[k].buffer {
        BufferKind::File => original.len() as int,
        BufferKind::Add => add.len() as int,
    }) by {
        let j = if k < pos {
            k
        } else {
            k + len
        };
        assert(0 <= m[j].at);
    }
    assert forall|i: int, j: int|
        #![trigger c[i], c[j]]
        0 <= i < j < c.len() implies c[i].buffer != c[j].buffer || c[i].at != c[j].at by {
        let i0 = if i < pos {
            i
        } else {
            i + len
        };
        let j0 = if j < pos {
            j
        } else {
            j + len
        };
        assert(m[i0].buffer != m[j0].buffer || m[i0].at != m[j0].at);
    }
}

} // verus!
