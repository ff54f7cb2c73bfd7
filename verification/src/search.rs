//! Finding a pattern in a document.
use vstd::prelude::*;
use vstd::std_specs::iter::IteratorSpec;

use crate::compact::CompactPieceTable;
use crate::iter::refs;
use crate::table::PieceTable;

verus! {

/// What it means that two elements are equal.
pub type Relation<T> = spec_fn(T, T) -> bool;

/// Whether `x` and `y` are the same.
pub open spec fn same<T>() -> Relation<T> {
    |x: T, y: T| x == y
}

/// The `==` of `T` answers whether `rel` holds.
pub open spec fn answers<T: PartialEq>(rel: Relation<T>) -> bool {
    forall|x: &T, y: &T, r: bool| #[trigger]
        call_ensures(<T as PartialEq>::eq, (x, y), r) ==> r == rel(*x, *y)
}

/// The `==` of `T` answers whether `rel` holds, which is symmetric and transitive.
pub open spec fn judges<T: PartialEq>(rel: Relation<T>) -> bool {
    &&& answers::<T>(rel)
    &&& forall|x: T, y: T| #[trigger] rel(x, y) ==> rel(y, x)
    &&& forall|x: T, y: T, z: T| #[trigger] rel(x, y) && #[trigger] rel(y, z) ==> rel(x, z)
}

/// The `==` of `char`, [`PartialEq::eq`]: it compares the values.
pub assume_specification[ <char as PartialEq>::eq ](a: &char, b: &char) -> (r: bool)
    ensures
        r == (*a == *b),
;

/// The `==` of `char` answers whether two characters are the same.
pub proof fn lemma_judges_chars()
    ensures
        judges::<char>(same()),
{
}

/// The `==` of `u8` answers whether two bytes are the same.
pub proof fn lemma_judges_bytes()
    ensures
        judges::<u8>(same()),
{
}

fn equal<T: PartialEq>(a: &T, b: &T) -> (r: bool)
    ensures
        forall|rel: Relation<T>| #[trigger] answers::<T>(rel) ==> r == rel(*a, *b),
        forall|rel: Relation<T>| #[trigger] judges::<T>(rel) ==> r == rel(*a, *b),
{
    let f = <T as PartialEq>::eq;
    f(a, b)
}

/// How much of the pattern `p` is still found once `x` does not follow its first `q` elements:
/// the lengths that `lps` gives are tried one after the other.
pub open spec fn fallen<T>(
    p: Seq<T>,
    lps: Seq<usize>,
    q: int,
    x: T,
    rel: Relation<T>,
) -> int
    decreases q,
{
    if 0 < q && !rel(x, p[q]) && lps[q - 1] < q {
        fallen(p, lps, lps[q - 1] as int, x, rel)
    } else {
        q
    }
}

/// How much of the pattern `p` is found once `x` was read, where `q` elements were found before.
pub open spec fn advanced<T>(
    p: Seq<T>,
    lps: Seq<usize>,
    q: int,
    x: T,
    rel: Relation<T>,
) -> int {
    let f = fallen(p, lps, q, x, rel);
    if rel(x, p[f]) {
        f + 1
    } else {
        f
    }
}

/// The lengths to fall back to in the pattern `p`, for its first `n` elements.
pub open spec fn fallbacks<T>(p: Seq<T>, n: nat, rel: Relation<T>) -> Seq<usize>
    decreases n,
{
    if n == 0 {
        Seq::empty()
    } else if n == 1 {
        seq![0usize]
    } else {
        let l = fallbacks(p, (n - 1) as nat, rel);
        l.push(advanced(p, l, l[n - 2] as int, p[n - 1], rel) as usize)
    }
}

/// What was found, and how much of the pattern `p` is found, once `x`, element `i` of a document,
/// was read too.
pub open spec fn read_on<T>(
    p: Seq<T>,
    lps: Seq<usize>,
    found: (Seq<usize>, int),
    i: int,
    x: T,
    rel: Relation<T>,
) -> (Seq<usize>, int) {
    let f = advanced(p, lps, found.1, x, rel);
    if f == p.len() {
        (found.0.push((i + 1 - p.len()) as usize), lps[f - 1] as int)
    } else {
        (found.0, f)
    }
}

/// What was found, and how much of the pattern `p` is found, once the first `n` elements of `t`
/// were read.
pub open spec fn read_to<T>(
    t: Seq<T>,
    p: Seq<T>,
    lps: Seq<usize>,
    n: nat,
    rel: Relation<T>,
) -> (Seq<usize>, int)
    decreases n,
{
    if n == 0 {
        (Seq::empty(), 0)
    } else {
        read_on(p, lps, read_to(t, p, lps, (n - 1) as nat, rel), n - 1, t[n - 1], rel)
    }
}

/// What reading through `t` once finds of the pattern `p`, whatever relation `==` answers.
///
/// Where that is symmetric and transitive these are all the positions of `p`.
pub open spec fn read_through<T>(t: Seq<T>, p: Seq<T>, rel: Relation<T>) -> Seq<usize> {
    if p.len() == 0 {
        Seq::empty()
    } else {
        read_to(t, p, fallbacks(p, p.len(), rel), t.len(), rel).0
    }
}

/// Falling back from `q` goes by the first `q` lengths alone.
proof fn lemma_fallen_prefix<T>(
    p: Seq<T>,
    a: Seq<usize>,
    b: Seq<usize>,
    q: int,
    n: int,
    x: T,
    rel: Relation<T>,
)
    requires
        0 <= q <= n,
        forall|k: int| 0 <= k < n ==> #[trigger] a[k] == b[k],
    ensures
        fallen(p, a, q, x, rel) == fallen(p, b, q, x, rel),
    decreases q,
{
    if 0 < q && !rel(x, p[q]) && a[q - 1] < q {
        assert(a[q - 1] == b[q - 1]);
        lemma_fallen_prefix(p, a, b, a[q - 1] as int, n, x, rel);
    } else if 0 < q {
        assert(a[q - 1] == b[q - 1]);
    }
}

/// One length more: that for element `i` of the pattern, for which `q` is left to try.
proof fn lemma_fallback_set<T>(
    p: Seq<T>,
    before: Seq<usize>,
    after: Seq<usize>,
    i: int,
    q: int,
    rel: Relation<T>,
)
    requires
        1 <= i < p.len(),
        before.len() == p.len(),
        before.take(i) == fallbacks(p, i as nat, rel),
        0 <= q < i,
        before[i - 1] < i,
        fallen(p, before, before[i - 1] as int, p[i], rel) == fallen(p, before, q, p[i], rel),
        advanced(p, before, q, p[i], rel) <= usize::MAX,
        after == before.update(i, advanced(p, before, q, p[i], rel) as usize),
    ensures
        after.take(i + 1) == fallbacks(p, (i + 1) as nat, rel),
{
    let l = before.take(i);
    lemma_fallen_prefix(p, l, before, before[i - 1] as int, i, p[i], rel);
    assert(l[i - 1] == before[i - 1]);
    assert(after.take(i + 1) =~= l.push(after[i]));
}

/// The `q` elements of `t` before position `i` match the first `q` of `p`.
pub open spec fn tail_matches<T>(
    t: Seq<T>,
    i: int,
    p: Seq<T>,
    q: int,
    rel: Relation<T>,
) -> bool {
    &&& 0 <= q <= i <= t.len()
    &&& q <= p.len()
    &&& forall|j: int| 0 <= j < q ==> rel(t[i - q + j], #[trigger] p[j])
}

/// The elements of `t` from position `i` on match those of `p`.
pub open spec fn matches_at<T>(t: Seq<T>, p: Seq<T>, i: int, rel: Relation<T>) -> bool {
    tail_matches(t, i + p.len(), p, p.len() as int, rel)
}

/// `out` lists the positions below `n` at which `p` is found in `t`, in order.
pub open spec fn hits_below<T>(
    out: Seq<usize>,
    t: Seq<T>,
    p: Seq<T>,
    n: int,
    rel: Relation<T>,
) -> bool {
    &&& forall|a: int, b: int|
        #![trigger out[a], out[b]]
        0 <= a < b < out.len() ==> out[a] < out[b]
    &&& forall|a: int|
        0 <= a < out.len() ==> (#[trigger] out[a]) < n && matches_at(t, p, out[a] as int, rel)
    &&& forall|i: int|
        0 <= i < n && #[trigger] matches_at(t, p, i, rel) ==> out.contains(i as usize)
}

/// `out` lists all the positions at which `p` is found in `t`, in order.
pub open spec fn all_hits<T>(out: Seq<usize>, t: Seq<T>, p: Seq<T>, rel: Relation<T>) -> bool {
    hits_below(out, t, p, t.len() as int, rel)
}

/// `q` is the length of the longest proper prefix of the first `k` elements of `p` that is also
/// a suffix of them.
pub open spec fn longest_border<T>(p: Seq<T>, k: int, q: int, rel: Relation<T>) -> bool {
    &&& q < k
    &&& tail_matches(p, k, p, q, rel)
    &&& forall|r: int| q < r < k ==> !#[trigger] tail_matches(p, k, p, r, rel)
}

/// `lps` holds the longest border of each prefix of `p` of up to `n` elements.
pub open spec fn borders_to<T>(lps: Seq<usize>, p: Seq<T>, n: int, rel: Relation<T>) -> bool {
    forall|k: int| 0 < k <= n ==> longest_border(p, k, #[trigger] lps[k - 1] as int, rel)
}

/// Where a prefix of `q` elements of `p` was found, a shorter one is found exactly if it is a
/// border of that prefix.
proof fn lemma_border<T: PartialEq>(
    t: Seq<T>,
    i: int,
    p: Seq<T>,
    q: int,
    r: int,
    rel: Relation<T>,
)
    requires
        judges::<T>(rel),
        tail_matches(t, i, p, q, rel),
        0 <= r <= q,
    ensures
        tail_matches(t, i, p, r, rel) <==> tail_matches(p, q, p, r, rel),
{
    assert forall|j: int| 0 <= j < r implies rel(t[i - r + j], #[trigger] p[q - r + j]) by {
        assert(rel(t[i - q + (q - r + j)], p[q - r + j]));
    }
    if tail_matches(t, i, p, r, rel) {
        assert forall|j: int| 0 <= j < r implies rel(p[q - r + j], #[trigger] p[j]) by {
            assert(rel(t[i - r + j], p[j]));
            assert(rel(t[i - r + j], p[q - r + j]));
            assert(rel(p[q - r + j], t[i - r + j]));
        }
    }
    if tail_matches(p, q, p, r, rel) {
        assert forall|j: int| 0 <= j < r implies rel(t[i - r + j], #[trigger] p[j]) by {
            assert(rel(p[q - r + j], p[j]));
            assert(rel(t[i - r + j], p[q - r + j]));
        }
    }
}

/// A prefix of one more element is found one position later exactly if the next elements match.
proof fn lemma_longer<T>(t: Seq<T>, i: int, p: Seq<T>, q: int, rel: Relation<T>)
    requires
        0 <= i < t.len(),
        0 <= q < p.len(),
    ensures
        tail_matches(t, i + 1, p, q + 1, rel) <==> tail_matches(t, i, p, q, rel) && rel(t[i], p[q]),
{
    if tail_matches(t, i + 1, p, q + 1, rel) {
        assert forall|j: int| 0 <= j < q implies rel(t[i - q + j], #[trigger] p[j]) by {
            assert(rel(t[i + 1 - (q + 1) + j], p[j]));
        }
        assert(rel(t[i + 1 - (q + 1) + q], p[q]));
    }
    if tail_matches(t, i, p, q, rel) && rel(t[i], p[q]) {
        assert forall|j: int| 0 <= j < q + 1 implies rel(
            t[i + 1 - (q + 1) + j],
            #[trigger] p[j],
        ) by {
            if j < q {
                assert(rel(t[i - q + j], p[j]));
            }
        }
    }
}

/// Of the prefixes of `p` with fewer than `limit` elements that are found before position `i` of
/// `t`, and that the next element continues, none is longer than `q`, which is found there.
pub open spec fn best<T>(
    t: Seq<T>,
    i: int,
    p: Seq<T>,
    q: int,
    limit: int,
    rel: Relation<T>,
) -> bool {
    &&& tail_matches(t, i, p, q, rel)
    &&& forall|r: int|
        q < r < limit && #[trigger] tail_matches(t, i, p, r, rel) ==> !rel(t[i], p[r])
}

/// If the next element does not continue the prefix, the longest border of it is tried.
proof fn lemma_fall_back<T: PartialEq>(
    t: Seq<T>,
    i: int,
    p: Seq<T>,
    q: int,
    limit: int,
    lps: Seq<usize>,
    rel: Relation<T>,
)
    requires
        judges::<T>(rel),
        best(t, i, p, q, limit, rel),
        0 < q,
        borders_to(lps, p, q, rel),
        i < t.len(),
        !rel(t[i], p[q]),
    ensures
        best(t, i, p, lps[q - 1] as int, limit, rel),
{
    let b = lps[q - 1] as int;
    assert(longest_border(p, q, b, rel));
    lemma_border(t, i, p, q, b, rel);
    assert forall|r: int|
        b < r < limit && #[trigger] tail_matches(t, i, p, r, rel) implies !rel(t[i], p[r]) by {
        if r < q {
            lemma_border(t, i, p, q, r, rel);
            assert(tail_matches(p, q, p, r, rel));
        }
    }
}

/// The best prefix, if the next element continues it, is the longest one found a position later.
proof fn lemma_best_continues<T>(
    t: Seq<T>,
    i: int,
    p: Seq<T>,
    q: int,
    limit: int,
    rel: Relation<T>,
)
    requires
        best(t, i, p, q, limit, rel),
        0 <= i < t.len(),
        q < limit <= p.len(),
    ensures
        rel(t[i], p[q]) ==> tail_matches(t, i + 1, p, q + 1, rel),
        forall|r: int|
            q + 1 < r <= limit ==> !#[trigger] tail_matches(t, i + 1, p, r, rel),
        !rel(t[i], p[q]) ==> !tail_matches(t, i + 1, p, q + 1, rel),
{
    lemma_longer(t, i, p, q, rel);
    assert forall|r: int| q + 1 < r <= limit implies !#[trigger] tail_matches(
        t,
        i + 1,
        p,
        r,
        rel,
    ) by {
        lemma_longer(t, i, p, r - 1, rel);
    }
}

/// For each prefix of `pattern`, the length of its longest border.
pub(crate) fn build_kmp_lps<T: PartialEq>(pattern: &[T]) -> (lps: Vec<usize>)
    ensures
        lps@.len() == pattern@.len(),
        forall|k: int| 0 <= k < lps@.len() ==> #[trigger] lps@[k] <= k,
        forall|rel: Relation<T>| #[trigger]
            judges::<T>(rel) ==> borders_to(lps@, pattern@, pattern@.len() as int, rel),
        forall|rel: Relation<T>| #[trigger]
            answers::<T>(rel) ==> lps@ == fallbacks(pattern@, pattern@.len(), rel),
{
    let n = pattern.len();
    let ghost p = pattern@;
    let mut lps: Vec<usize> = vec![0; n];
    let mut len: usize = 0;
    let mut i: usize = 1;
    proof {
        assert forall|rel: Relation<T>| #[trigger] judges::<T>(rel) && 1 <= p.len() implies borders_to(
            lps@,
            p,
            1,
            rel,
        ) && best(p, 1, p, 0, 1, rel) by {}
        assert(p.len() > 0 ==> lps@.take(1) =~= seq![0usize]);
    }
    while i < n
        invariant
            n == p.len(),
            p == pattern@,
            lps@.len() == n,
            1 <= i,
            n > 0 ==> i <= n,
            len < i,
            forall|k: int| 0 <= k < lps@.len() ==> #[trigger] lps@[k] <= k,
            n > 0 ==> forall|rel: Relation<T>| #[trigger]
                judges::<T>(rel) ==> borders_to(lps@, p, i as int, rel),
            i < n ==> forall|rel: Relation<T>| #[trigger]
                judges::<T>(rel) ==> best(p, i as int, p, len as int, i as int, rel),
            n > 0 ==> forall|rel: Relation<T>| #[trigger]
                answers::<T>(rel) ==> lps@.take(i as int) == fallbacks(p, i as nat, rel),
            i < n ==> forall|rel: Relation<T>| #[trigger]
                answers::<T>(rel) ==> fallen(p, lps@, lps@[i - 1] as int, p[i as int], rel)
                    == fallen(p, lps@, len as int, p[i as int], rel),
        decreases n - i, len,
    {
        let ghost before = lps@;
        let ghost at = i as int;
        let ghost q = len as int;
        if equal(&pattern[i], &pattern[len]) {
            proof {
                assert forall|rel: Relation<T>| #[trigger] judges::<T>(rel) implies longest_border(
                    p,
                    i + 1,
                    len + 1,
                    rel,
                ) by {
                    lemma_best_continues(p, i as int, p, len as int, i as int, rel);
                }
            }
            len += 1;
            lps[i] = len;
            i += 1;
            proof {
                assert forall|rel: Relation<T>| #[trigger] judges::<T>(rel) implies borders_to(
                    lps@,
                    p,
                    i as int,
                    rel,
                ) && best(p, i as int, p, len as int, i as int, rel) by {
                    lemma_border_set(before, lps@, p, i as int, rel);
                }
                assert forall|rel: Relation<T>| #[trigger] answers::<T>(rel) implies lps@.take(
                    i as int,
                ) == fallbacks(p, i as nat, rel) by {
                    lemma_fallback_set(p, before, lps@, at, q, rel);
                }
            }
        } else if len != 0 {
            proof {
                assert forall|rel: Relation<T>| #[trigger] judges::<T>(rel) implies best(
                    p,
                    i as int,
                    p,
                    lps@[len - 1] as int,
                    i as int,
                    rel,
                ) by {
                    assert(borders_to(lps@, p, len as int, rel));
                    lemma_fall_back(p, i as int, p, len as int, i as int, lps@, rel);
                }
            }
            len = lps[len - 1];
        } else {
            proof {
                assert forall|rel: Relation<T>| #[trigger] judges::<T>(rel) implies longest_border(
                    p,
                    i + 1,
                    0,
                    rel,
                ) by {
                    lemma_best_continues(p, i as int, p, 0, i as int, rel);
                }
            }
            lps[i] = 0;
            i += 1;
            proof {
                assert forall|rel: Relation<T>| #[trigger] judges::<T>(rel) implies borders_to(
                    lps@,
                    p,
                    i as int,
                    rel,
                ) && best(p, i as int, p, 0, i as int, rel) by {
                    lemma_border_set(before, lps@, p, i as int, rel);
                }
                assert forall|rel: Relation<T>| #[trigger] answers::<T>(rel) implies lps@.take(
                    i as int,
                ) == fallbacks(p, i as nat, rel) by {
                    lemma_fallback_set(p, before, lps@, at, q, rel);
                }
            }
        }
    }
    assert(lps@.take(n as int) =~= lps@);
    lps
}

proof fn lemma_border_set<T>(
    before: Seq<usize>,
    after: Seq<usize>,
    p: Seq<T>,
    i: int,
    rel: Relation<T>,
)
    requires
        1 < i <= p.len(),
        before.len() == p.len(),
        borders_to(before, p, i - 1, rel),
        after == before.update(i - 1, after[i - 1]),
        longest_border(p, i, after[i - 1] as int, rel),
    ensures
        borders_to(after, p, i, rel),
{
    assert forall|k: int| 0 < k <= i implies longest_border(
        p,
        k,
        #[trigger] after[k - 1] as int,
        rel,
    ) by {
        if k < i {
            assert(after[k - 1] == before[k - 1]);
        }
    }
}

/// `q` elements of `p`, and no more, up to `limit`, are found before position `i` of `t`.
pub open spec fn longest_found<T>(
    t: Seq<T>,
    i: int,
    p: Seq<T>,
    q: int,
    limit: int,
    rel: Relation<T>,
) -> bool {
    &&& tail_matches(t, i, p, q, rel)
    &&& forall|r: int| q < r <= limit ==> !#[trigger] tail_matches(t, i, p, r, rel)
}

/// How much of `pattern` is found once `item` was read, where `matched` elements of it were found
/// before that.
fn advance_match<T: PartialEq>(
    pattern: &[T],
    lps: &Vec<usize>,
    matched: usize,
    item: &T,
    Ghost(t): Ghost<Seq<T>>,
    Ghost(i): Ghost<int>,
) -> (r: usize)
    requires
        matched < pattern@.len(),
        lps@.len() == pattern@.len(),
        forall|k: int| 0 <= k < lps@.len() ==> #[trigger] lps@[k] <= k,
        forall|rel: Relation<T>| #[trigger]
            judges::<T>(rel) ==> borders_to(lps@, pattern@, pattern@.len() as int, rel),
        0 <= i < t.len(),
        *item == t[i],
        forall|rel: Relation<T>| #[trigger]
            judges::<T>(rel) ==> longest_found(
                t,
                i,
                pattern@,
                matched as int,
                pattern@.len() - 1,
                rel,
            ),
    ensures
        r <= matched + 1,
        forall|rel: Relation<T>| #[trigger]
            answers::<T>(rel) ==> r == advanced(pattern@, lps@, matched as int, *item, rel),
        forall|rel: Relation<T>| #[trigger]
            judges::<T>(rel) ==> longest_found(
                t,
                i + 1,
                pattern@,
                r as int,
                pattern@.len() as int,
                rel,
            ),
{
    let ghost p = pattern@;
    let ghost m = pattern@.len() as int;
    let mut q: usize = matched;
    while q > 0 && !equal(item, &pattern[q])
        invariant
            p == pattern@,
            m == p.len(),
            q <= matched < m,
            lps@.len() == m,
            forall|k: int| 0 <= k < lps@.len() ==> #[trigger] lps@[k] <= k,
            forall|rel: Relation<T>| #[trigger] judges::<T>(rel) ==> borders_to(lps@, p, m, rel),
            0 <= i < t.len(),
            *item == t[i],
            forall|rel: Relation<T>| #[trigger]
                judges::<T>(rel) ==> best(t, i, p, q as int, m, rel),
            forall|rel: Relation<T>| #[trigger]
                answers::<T>(rel) ==> fallen(p, lps@, matched as int, *item, rel) == fallen(
                    p,
                    lps@,
                    q as int,
                    *item,
                    rel,
                ),
        ensures
            q <= matched < m,
            forall|rel: Relation<T>| #[trigger]
                answers::<T>(rel) ==> fallen(p, lps@, matched as int, *item, rel) == q,
            forall|rel: Relation<T>| #[trigger]
                judges::<T>(rel) ==> best(t, i, p, q as int, m, rel),
            q == 0 || forall|rel: Relation<T>| #[trigger]
                judges::<T>(rel) ==> rel(t[i], p[q as int]),
        decreases q,
    {
        proof {
            assert forall|rel: Relation<T>| #[trigger] judges::<T>(rel) implies best(
                t,
                i,
                p,
                lps@[q - 1] as int,
                m,
                rel,
            ) by {
                assert(borders_to(lps@, p, m, rel));
                lemma_fall_back(t, i, p, q as int, m, lps@, rel);
            }
        }
        q = lps[q - 1];
    }
    let hit = equal(item, &pattern[q]);
    let r: usize = if hit {
        q + 1
    } else {
        q
    };
    proof {
        assert forall|rel: Relation<T>| #[trigger] judges::<T>(rel) implies longest_found(
            t,
            i + 1,
            p,
            r as int,
            m,
            rel,
        ) by {
            lemma_best_continues(t, i, p, q as int, m, rel);
        }
    }
    r
}

/// The state of a search once the first `i` elements of `t` were read.
pub open spec fn scanned<T>(
    t: Seq<T>,
    i: int,
    p: Seq<T>,
    matched: int,
    out: Seq<usize>,
    rel: Relation<T>,
) -> bool {
    &&& longest_found(t, i, p, matched, p.len() - 1, rel)
    &&& hits_below(out, t, p, i + 1 - p.len(), rel)
}

proof fn lemma_full_match<T: PartialEq>(
    t: Seq<T>,
    i: int,
    p: Seq<T>,
    lps: Seq<usize>,
    rel: Relation<T>,
)
    requires
        judges::<T>(rel),
        0 < p.len(),
        borders_to(lps, p, p.len() as int, rel),
        tail_matches(t, i, p, p.len() as int, rel),
    ensures
        longest_found(t, i, p, lps[p.len() - 1] as int, p.len() - 1, rel),
{
    let m = p.len() as int;
    let b = lps[m - 1] as int;
    assert(longest_border(p, m, b, rel));
    lemma_border(t, i, p, m, b, rel);
    assert forall|r: int| b < r <= m - 1 implies !#[trigger] tail_matches(t, i, p, r, rel) by {
        lemma_border(t, i, p, m, r, rel);
        assert(!tail_matches(p, m, p, r, rel));
    }
}

pub(crate) proof fn lemma_hit<T>(out: Seq<usize>, t: Seq<T>, p: Seq<T>, n: int, rel: Relation<T>)
    requires
        0 <= n <= usize::MAX,
        hits_below(out, t, p, n, rel),
        matches_at(t, p, n, rel),
    ensures
        hits_below(out.push(n as usize), t, p, n + 1, rel),
{
    let more = out.push(n as usize);
    assert forall|i: int| 0 <= i < n + 1 && #[trigger] matches_at(t, p, i, rel) implies more.contains(
        i as usize,
    ) by {
        if i < n {
            let a = choose|a: int| 0 <= a < out.len() && out[a] == i as usize;
            assert(more[a] == i as usize);
        } else {
            assert(more[out.len() as int] == i as usize);
        }
    }
}

pub(crate) proof fn lemma_no_hit<T>(out: Seq<usize>, t: Seq<T>, p: Seq<T>, n: int, rel: Relation<T>)
    requires
        hits_below(out, t, p, n, rel),
        !matches_at(t, p, n, rel),
    ensures
        hits_below(out, t, p, n + 1, rel),
{
}

/// Reads `item`, element `index` of the document, and appends the position of `pattern` to `out`
/// if it ends there. Gives how much of `pattern` is found then.
fn scan_item<T: PartialEq>(
    pattern: &[T],
    lps: &Vec<usize>,
    matched: usize,
    index: usize,
    item: &T,
    out: &mut Vec<usize>,
    Ghost(t): Ghost<Seq<T>>,
) -> (r: usize)
    requires
        matched < pattern@.len(),
        matched <= index,
        lps@.len() == pattern@.len(),
        forall|k: int| 0 <= k < lps@.len() ==> #[trigger] lps@[k] <= k,
        forall|rel: Relation<T>| #[trigger]
            judges::<T>(rel) ==> borders_to(lps@, pattern@, pattern@.len() as int, rel),
        index < t.len() <= usize::MAX,
        *item == t[index as int],
        forall|rel: Relation<T>| #[trigger]
            judges::<T>(rel) ==> scanned(
                t,
                index as int,
                pattern@,
                matched as int,
                old(out)@,
                rel,
            ),
    ensures
        r < pattern@.len(),
        r <= index + 1,
        forall|rel: Relation<T>| #[trigger]
            judges::<T>(rel) ==> scanned(t, index + 1, pattern@, r as int, final(out)@, rel),
        forall|rel: Relation<T>| #[trigger]
            answers::<T>(rel) ==> (final(out)@, r as int) == read_on(
                pattern@,
                lps@,
                (old(out)@, matched as int),
                index as int,
                *item,
                rel,
            ),
{
    let ghost p = pattern@;
    let ghost m = pattern@.len() as int;
    let ghost before = out@;
    let found = advance_match(pattern, lps, matched, item, Ghost(t), Ghost(index as int));
    if found == pattern.len() {
        let at = index + 1 - pattern.len();
        out.push(at);
        let r = lps[found - 1];
        proof {
            assert forall|rel: Relation<T>| #[trigger] judges::<T>(rel) implies scanned(
                t,
                index + 1,
                p,
                r as int,
                out@,
                rel,
            ) by {
                assert(longest_found(t, index + 1, p, m, m, rel));
                lemma_full_match(t, index + 1, p, lps@, rel);
                assert(scanned(t, index as int, p, matched as int, before, rel));
                assert(matches_at(t, p, at as int, rel));
                lemma_hit(before, t, p, at as int, rel);
            }
        }
        r
    } else {
        proof {
            assert forall|rel: Relation<T>| #[trigger] judges::<T>(rel) implies scanned(
                t,
                index + 1,
                p,
                found as int,
                out@,
                rel,
            ) by {
                assert(scanned(t, index as int, p, matched as int, before, rel));
                assert(longest_found(t, index + 1, p, found as int, m, rel));
                assert(!tail_matches(t, index + 1, p, m, rel));
                assert(!matches_at(t, p, index + 1 - m, rel));
                lemma_no_hit(before, t, p, index + 1 - m, rel);
            }
        }
        found
    }
}

/// A search that has read the whole document has found all there is to find.
proof fn lemma_scanned_all<T>(
    t: Seq<T>,
    p: Seq<T>,
    matched: int,
    out: Seq<usize>,
    rel: Relation<T>,
)
    requires
        scanned(t, t.len() as int, p, matched, out, rel),
        p.len() > 0,
    ensures
        all_hits(out, t, p, rel),
{
    assert forall|i: int| 0 <= i < t.len() && #[trigger] matches_at(t, p, i, rel) implies out.contains(
        i as usize,
    ) by {
        assert(i < t.len() + 1 - p.len());
    }
}

/// A search that has read nothing has found nothing.
proof fn lemma_scanned_none<T>(t: Seq<T>, p: Seq<T>, rel: Relation<T>)
    requires
        p.len() > 0,
    ensures
        scanned(t, 0, p, 0, Seq::empty(), rel),
{
}

/// The positions at which `pattern` is found among the elements that `items` gives, in order; none
/// if `pattern` is empty.
fn scan_items<'a, T: PartialEq + 'a, I: Iterator<Item = &'a T>>(
    items: I,
    pattern: &[T],
    Ghost(t): Ghost<Seq<T>>,
) -> (out: Vec<usize>)
    requires
        items.obeys_prophetic_iter_laws(),
        items.remaining() == refs(t),
        t.len() <= usize::MAX,
    ensures
        pattern@.len() == 0 ==> out@.len() == 0,
        pattern@.len() > 0 ==> forall|rel: Relation<T>| #[trigger]
            judges::<T>(rel) ==> all_hits(out@, t, pattern@, rel),
        forall|rel: Relation<T>| #[trigger]
            answers::<T>(rel) ==> out@ == read_through(t, pattern@, rel),
{
    let mut out: Vec<usize> = Vec::new();
    if pattern.len() == 0 {
        return out;
    }
    let lps = build_kmp_lps(pattern);
    let mut items = items;
    let mut matched: usize = 0;
    let mut index: usize = 0;
    proof {
        assert(t.skip(0) =~= t);
        assert forall|rel: Relation<T>| #[trigger] judges::<T>(rel) implies scanned(
            t,
            0,
            pattern@,
            0,
            out@,
            rel,
        ) by {
            lemma_scanned_none(t, pattern@, rel);
        }
    }
    loop
        invariant
            items.obeys_prophetic_iter_laws(),
            t.len() <= usize::MAX,
            index <= t.len(),
            matched < pattern@.len(),
            matched <= index,
            lps@.len() == pattern@.len(),
            forall|k: int| 0 <= k < lps@.len() ==> #[trigger] lps@[k] <= k,
            forall|rel: Relation<T>| #[trigger]
                judges::<T>(rel) ==> borders_to(lps@, pattern@, pattern@.len() as int, rel),
            items.remaining() == refs(t.skip(index as int)),
            forall|rel: Relation<T>| #[trigger]
                judges::<T>(rel) ==> scanned(
                    t,
                    index as int,
                    pattern@,
                    matched as int,
                    out@,
                    rel,
                ),
            forall|rel: Relation<T>| #[trigger]
                answers::<T>(rel) ==> (out@, matched as int) == read_to(
                    t,
                    pattern@,
                    lps@,
                    index as nat,
                    rel,
                ),
            forall|rel: Relation<T>| #[trigger]
                answers::<T>(rel) ==> lps@ == fallbacks(pattern@, pattern@.len(), rel),
        decreases t.len() - index,
    {
        match items.next() {
            None => {
                proof {
                    assert(refs::<T>(t.skip(index as int)).len() == 0);
                    assert forall|rel: Relation<T>| #[trigger] judges::<T>(rel) implies all_hits(
                        out@,
                        t,
                        pattern@,
                        rel,
                    ) by {
                        lemma_scanned_all(t, pattern@, matched as int, out@, rel);
                    }
                }
                return out;
            },
            Some(item) => {
                proof {
                    lemma_refs_skip(t, index as int);
                }
                matched = scan_item(pattern, &lps, matched, index, item, &mut out, Ghost(t));
                index += 1;
            },
        }
    }
}

impl<T: Clone + PartialEq> PieceTable<T> {
    /// The positions at which `pattern` is found, in order; none if `pattern` is empty.
    pub fn find_substring(&self, pattern: &[T]) -> (out: Vec<usize>)
        requires
            self.wf(),
        ensures
            pattern@.len() == 0 ==> out@.len() == 0,
            pattern@.len() > 0 ==> forall|rel: Relation<T>| #[trigger]
                judges::<T>(rel) ==> all_hits(out@, self@, pattern@, rel),
            forall|rel: Relation<T>| #[trigger]
                answers::<T>(rel) ==> out@ == read_through(self@, pattern@, rel),
    {
        scan_items(self.iter(), pattern, Ghost(self@))
    }
}

impl<T: Clone + PartialEq> CompactPieceTable<T> {
    /// The positions at which `pattern` is found, in order; none if `pattern` is empty.
    pub fn find_substring(&self, pattern: &[T]) -> (out: Vec<usize>)
        requires
            self.wf(),
        ensures
            pattern@.len() == 0 ==> out@.len() == 0,
            pattern@.len() > 0 ==> forall|rel: Relation<T>| #[trigger]
                judges::<T>(rel) ==> all_hits(out@, self@, pattern@, rel),
            forall|rel: Relation<T>| #[trigger]
                answers::<T>(rel) ==> out@ == read_through(self@, pattern@, rel),
    {
        scan_items(self.iter(), pattern, Ghost(self@))
    }
}

pub(crate) proof fn lemma_refs_skip<T>(t: Seq<T>, i: int)
    requires
        0 <= i <= t.len(),
    ensures
        refs::<T>(t.skip(i)).len() == t.len() - i,
        i < t.len() ==> *refs::<T>(t.skip(i))[0] == t[i] && refs::<T>(t.skip(i)).drop_first()
            == refs::<T>(t.skip(i + 1)),
{
    if i < t.len() {
        assert(refs::<T>(t.skip(i)).drop_first() =~= refs::<T>(t.skip(i + 1)));
    }
}

} // verus!
