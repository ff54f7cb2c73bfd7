//! Finding bytes in a document.
use vstd::prelude::*;
use vstd::slice::slice_subrange;
use vstd::std_specs::iter::IteratorSpec;

use crate::content::text;
use crate::iter::refs;
use crate::piece::{lemma_marks_prefix, marks_of, BufferKind};
use crate::search::{
    all_hits, hits_below, lemma_hit, lemma_judges_bytes, lemma_refs_skip, matches_at, same,
};
use crate::table::{lemma_cache_right, PieceTable};
use crate::walk::{lemma_placement, lemma_tree_pieces, placements_of, tree_flat};

verus! {

/// Selects the substring search strategy for byte-oriented APIs.
#[derive(Clone, Copy, Debug, PartialEq, Eq, Structural)]
pub enum SearchAlgorithm {
    Auto,
    Kmp,
    BoyerMooreHorspool,
}

/// How far a search may move on when it has looked at a byte in the place of the last byte of
/// the pattern: not past a place at which the pattern has that byte elsewhere.
pub open spec fn safe_shifts(shift: Seq<usize>, p: Seq<u8>) -> bool {
    &&& shift.len() == 256
    &&& forall|c: int| 0 <= c < 256 ==> 1 <= #[trigger] shift[c] <= p.len()
    &&& forall|j: int|
        0 <= j < p.len() - 1 ==> shift[(#[trigger] p[j]) as int] <= p.len() - 1 - j
}

fn build_shifts(pattern: &[u8]) -> (shift: Vec<usize>)
    requires
        pattern@.len() > 0,
    ensures
        safe_shifts(shift@, pattern@),
{
    let m = pattern.len();
    let mut shift: Vec<usize> = vec![m; 256];
    let last = m - 1;
    for i in 0..last
        invariant
            m == pattern@.len(),
            last == m - 1,
            0 < m,
            shift@.len() == 256,
            forall|c: int| 0 <= c < 256 ==> 1 <= #[trigger] shift@[c] <= m,
            forall|j: int| 0 <= j < i ==> shift@[(#[trigger] pattern@[j]) as int] <= m - 1 - j,
    {
        shift[pattern[i] as usize] = last - i;
    }
    shift
}

/// No match is passed over by a safe shift.
proof fn lemma_shift(t: Seq<u8>, p: Seq<u8>, i: int, shift: Seq<usize>, k: int)
    requires
        safe_shifts(shift, p),
        0 < p.len(),
        0 <= i,
        i + p.len() <= t.len(),
        i < k < i + shift[t[i + p.len() - 1] as int],
    ensures
        !matches_at(t, p, k, same()),
{
    if matches_at(t, p, k, same()) {
        let j = p.len() - 1 - (k - i);
        assert(same::<u8>()(t[k + p.len() - p.len() + j], p[j]));
        assert(p[j] == t[i + p.len() - 1]);
    }
}

/// Nothing is found from position `n` up to `more`.
proof fn lemma_gap(out: Seq<usize>, t: Seq<u8>, p: Seq<u8>, n: int, more: int)
    requires
        hits_below(out, t, p, n, same()),
        n <= more,
        forall|k: int| n <= k < more ==> !#[trigger] matches_at(t, p, k, same()),
    ensures
        hits_below(out, t, p, more, same()),
{
}

/// The positions at which `pattern` is found in `text`, by the method of Boyer, Moore and
/// Horspool.
fn find_bmh(text: &Vec<u8>, pattern: &[u8]) -> (out: Vec<usize>)
    requires
        pattern@.len() > 0,
    ensures
        all_hits(out@, text@, pattern@, same()),
{
    let n = text.len();
    let m = pattern.len();
    let ghost t = text@;
    let ghost p = pattern@;
    let mut out: Vec<usize> = Vec::new();
    if m > n {
        return out;
    }
    let shift = build_shifts(pattern);
    let mut i: usize = 0;
    while i <= n - m
        invariant
            t == text@,
            p == pattern@,
            n == t.len(),
            m == p.len(),
            0 < m <= n,
            safe_shifts(shift@, p),
            i <= n,
            hits_below(out@, t, p, i as int, same()),
        decreases n - i,
    {
        let mut j: usize = m;
        while j > 0 && pattern[j - 1] == text[i + j - 1]
            invariant
                t == text@,
                p == pattern@,
                n == t.len(),
                m == p.len(),
                i <= n - m,
                m <= n,
                j <= m,
                forall|k: int| j <= k < m ==> t[i + k] == #[trigger] p[k],
            ensures
                j <= m,
                forall|k: int| j <= k < m ==> t[i + k] == #[trigger] p[k],
                j > 0 ==> p[j - 1] != t[i + j - 1],
            decreases j,
        {
            j -= 1;
        }
        if j == 0 {
            proof {
                assert forall|k: int| 0 <= k < m implies same::<u8>()(
                    t[i + m - m + k],
                    #[trigger] p[k],
                ) by {
                    assert(t[i + k] == p[k]);
                }
                assert(matches_at(t, p, i as int, same()));
                lemma_hit(out@, t, p, i as int, same());
            }
            out.push(i);
            i += 1;
        } else {
            let c = text[i + m - 1] as usize;
            let step = shift[c];
            proof {
                assert(!matches_at(t, p, i as int, same())) by {
                    if matches_at(t, p, i as int, same()) {
                        assert(same::<u8>()(t[i + m - m + (j - 1)], p[j - 1]));
                    }
                }
                assert forall|k: int| i <= k < i + step implies !#[trigger] matches_at(
                    t,
                    p,
                    k,
                    same(),
                ) by {
                    if k > i {
                        lemma_shift(t, p, i as int, shift@, k);
                    }
                }
                lemma_gap(out@, t, p, i as int, i + step);
            }
            i += step;
        }
    }
    proof {
        assert forall|k: int| i <= k < n implies !#[trigger] matches_at(t, p, k, same()) by {}
        lemma_gap(out@, t, p, i as int, n as int);
    }
    out
}

/// The positions at which `pattern` is found in the document, by the method of Boyer, Moore and
/// Horspool.
fn find_bmh_bytes(table: &PieceTable<u8>, pattern: &[u8]) -> (out: Vec<usize>)
    requires
        table.wf(),
        pattern@.len() > 0,
    ensures
        all_hits(out@, table@, pattern@, same()),
{
    if pattern.len() > table.len() {
        return Vec::new();
    }
    find_bmh(&table.collect_bytes(), pattern)
}

/// The places of `needle` in `haystack`, by [`memchr::memchr_iter`]: the iterator gives every
/// index at which the byte is `needle`, and no other, in increasing order.
#[verifier::external_body]
fn places_of(needle: u8, haystack: &[u8]) -> (out: Vec<usize>)
    ensures
        forall|a: int, b: int|
            #![trigger out@[a], out@[b]]
            0 <= a < b < out@.len() ==> out@[a] < out@[b],
        forall|a: int|
            0 <= a < out@.len() ==> (#[trigger] out@[a]) < haystack@.len() && haystack@[out@[a] as int]
                == needle,
        forall|i: int|
            0 <= i < haystack@.len() && #[trigger] haystack@[i] == needle ==> out@.contains(
                i as usize,
            ),
{
    memchr::memchr_iter(needle, haystack).collect()
}

proof fn lemma_single(t: Seq<u8>, needle: u8, k: int)
    ensures
        matches_at(t, seq![needle], k, same()) <==> 0 <= k < t.len() && t[k] == needle,
{
    let p = seq![needle];
    if matches_at(t, p, k, same()) {
        assert(same::<u8>()(t[k + 1 - 1 + 0], p[0]));
    }
    if 0 <= k < t.len() && t[k] == needle {
        assert forall|j: int| 0 <= j < 1 implies same::<u8>()(
            t[k + 1 - 1 + j],
            #[trigger] p[j],
        ) by {}
    }
}

/// Appends the places of `needle` in `part`, the elements of `t` from position `start` on.
fn push_places(
    needle: u8,
    part: &[u8],
    start: usize,
    out: &mut Vec<usize>,
    Ghost(t): Ghost<Seq<u8>>,
)
    requires
        start + part@.len() <= t.len() <= usize::MAX,
        part@ == t.subrange(start as int, start + part@.len()),
        hits_below(old(out)@, t, seq![needle], start as int, same()),
    ensures
        hits_below(final(out)@, t, seq![needle], start + part@.len(), same()),
{
    let places = places_of(needle, part);
    let ghost p = seq![needle];
    let ghost mut done = start as int;
    for k in 0..places.len()
        invariant
            p == seq![needle],
            start + part@.len() <= t.len() <= usize::MAX,
            part@ == t.subrange(start as int, start + part@.len()),
            forall|a: int, b: int|
                #![trigger places@[a], places@[b]]
                0 <= a < b < places@.len() ==> places@[a] < places@[b],
            forall|a: int|
                0 <= a < places@.len() ==> (#[trigger] places@[a]) < part@.len()
                    && part@[places@[a] as int] == needle,
            forall|i: int|
                0 <= i < part@.len() && #[trigger] part@[i] == needle ==> places@.contains(
                    i as usize,
                ),
            done == (if k == 0 {
                start as int
            } else {
                start + places@[k - 1] + 1
            }),
            hits_below(out@, t, p, done, same()),
    {
        let at = start + places[k];
        proof {
            assert forall|i: int| done <= i < at implies !#[trigger] matches_at(t, p, i, same()) by {
                lemma_single(t, needle, i);
                if t[i] == needle {
                    lemma_between(places@, part@, needle, k as int, i - start);
                }
            }
            lemma_gap(out@, t, p, done, at as int);
            assert(part@[places@[k as int] as int] == needle);
            lemma_single(t, needle, at as int);
            lemma_hit(out@, t, p, at as int, same());
            done = at + 1;
        }
        out.push(at);
    }
    proof {
        let end = start + part@.len();
        assert forall|i: int| done <= i < end implies !#[trigger] matches_at(t, p, i, same()) by {
            lemma_single(t, needle, i);
            if t[i] == needle {
                lemma_between(places@, part@, needle, places@.len() as int, i - start);
            }
        }
        lemma_gap(out@, t, p, done, end);
    }
}

/// A place that is not before place `k` of the list is at or after it.
proof fn lemma_between(places: Seq<usize>, part: Seq<u8>, needle: u8, k: int, i: int)
    requires
        forall|a: int, b: int|
            #![trigger places[a], places[b]]
            0 <= a < b < places.len() ==> places[a] < places[b],
        forall|i: int|
            0 <= i < part.len() && #[trigger] part[i] == needle ==> places.contains(i as usize),
        0 <= i < part.len() <= usize::MAX,
        part[i] == needle,
        0 <= k <= places.len(),
        k > 0 ==> places[k - 1] < i,
    ensures
        k < places.len(),
        places[k] <= i,
{
    assert(places.contains(i as usize));
    let a = choose|a: int| 0 <= a < places.len() && places[a] == i as usize;
    if k > 0 && a < k - 1 {
        assert(places[a] < places[k - 1]);
    }
    if a > k {
        assert(places[k] < places[a]);
    }
}

impl PieceTable<u8> {
    /// The bytes of the document.
    pub(crate) fn collect_bytes(&self) -> (bytes: Vec<u8>)
        requires
            self.wf(),
        ensures
            bytes@ == self@,
    {
        let mut bytes: Vec<u8> = Vec::with_capacity(self.len());
        let ghost t = self@;
        let mut items = self.iter();
        assert(t.skip(0) =~= t);
        loop
            invariant
                t == self@,
                bytes@.len() <= t.len(),
                bytes@ == t.take(bytes@.len() as int),
                items.remaining() == refs(t.skip(bytes@.len() as int)),
            decreases t.len() - bytes@.len(),
        {
            match items.next() {
                None => {
                    proof {
                        lemma_refs_skip(t, bytes@.len() as int);
                        assert(bytes@ =~= t);
                    }
                    return bytes;
                },
                Some(b) => {
                    proof {
                        lemma_refs_skip(t, bytes@.len() as int);
                        assert(t.take(bytes@.len() as int).push(*b) =~= t.take(
                            bytes@.len() as int + 1,
                        ));
                    }
                    bytes.push(*b);
                },
            }
        }
    }

    /// The positions at which `pattern` is found, in order; none if `pattern` is empty.
    pub fn find_substring_with(&self, pattern: &[u8], algorithm: SearchAlgorithm) -> (out: Vec<
        usize,
    >)
        requires
            self.wf(),
        ensures
            pattern@.len() == 0 ==> out@.len() == 0,
            pattern@.len() > 0 ==> all_hits(out@, self@, pattern@, same()),
        decreases (if pattern@.len() == 1 {
            1int
        } else {
            0int
        }),
    {
        if pattern.len() == 0 {
            return Vec::new();
        }
        proof {
            lemma_judges_bytes();
        }
        match algorithm {
            SearchAlgorithm::Kmp => self.find_substring(pattern),
            SearchAlgorithm::BoyerMooreHorspool => find_bmh_bytes(self, pattern),
            SearchAlgorithm::Auto => {
                if pattern.len() == 1 {
                    self.find_substring_optimized(pattern)
                } else if pattern.len() >= 8 {
                    find_bmh_bytes(self, pattern)
                } else {
                    self.find_substring(pattern)
                }
            },
        }
    }

    /// The positions at which `pattern` is found, in order; none if `pattern` is empty. A single
    /// byte is looked for piece by piece.
    pub fn find_substring_optimized(&self, pattern: &[u8]) -> (out: Vec<usize>)
        requires
            self.wf(),
        ensures
            pattern@.len() == 0 ==> out@.len() == 0,
            pattern@.len() > 0 ==> all_hits(out@, self@, pattern@, same()),
        decreases (if pattern@.len() == 1 {
            0int
        } else {
            1int
        }),
    {
        if pattern.len() == 0 {
            return Vec::new();
        }
        if pattern.len() == 1 {
            let needle = pattern[0];
            assert(pattern@ =~= seq![needle]);
            return self.find_byte(needle);
        }
        self.find_substring_with(pattern, SearchAlgorithm::Auto)
    }

    /// The positions at which the byte `needle` is found, in order.
    fn find_byte(&self, needle: u8) -> (out: Vec<usize>)
        requires
            self.wf(),
        ensures
            all_hits(out@, self@, seq![needle], same()),
    {
        let ghost t = self@;
        let ghost ps = tree_flat(self.root);
        let places = self.placements();
        let mut out: Vec<usize> = Vec::new();
        proof {
            lemma_tree_pieces(self);
            assert(ps.take(0) =~= Seq::empty());
        }
        for i in 0..places.len()
            invariant
                self.wf(),
                t == self@,
                ps == tree_flat(self.root),
                places@ == placements_of(ps, 0),
                hits_below(
                    out@,
                    t,
                    seq![needle],
                    marks_of(ps.take(i as int)).len() as int,
                    same(),
                ),
        {
            let place = places[i];
            proof {
                lemma_placed(self, i as int);
            }
            let end = place.buffer_start + (place.piece_end - place.piece_start);
            let part = match place.buffer {
                BufferKind::File => slice_subrange(
                    self.original.as_slice(),
                    place.buffer_start,
                    end,
                ),
                BufferKind::Add => slice_subrange(self.add.as_slice(), place.buffer_start, end),
            };
            assert(part@ =~= t.subrange(place.piece_start as int, place.piece_end as int));
            push_places(needle, part, place.piece_start, &mut out, Ghost(t));
        }
        assert(ps.take(ps.len() as int) =~= ps);
        proof {
            lemma_tree_pieces(self);
        }
        out
    }
}

/// What is known of piece `i` of a table.
proof fn lemma_placed(table: &PieceTable<u8>, i: int)
    requires
        table.wf(),
        0 <= i < tree_flat(table.root).len(),
    ensures
        ({
            let ps = tree_flat(table.root);
            let c = placements_of(ps, 0)[i];
            &&& c.right(table.original@, table.add@, table@)
            &&& c.piece_start == marks_of(ps.take(i)).len()
            &&& c.piece_end == marks_of(ps.take(i + 1)).len()
            &&& table.original@.len() <= usize::MAX
            &&& table.add@.len() <= usize::MAX
        }),
{
    let ps = tree_flat(table.root);
    let c = placements_of(ps, 0)[i];
    lemma_tree_pieces(table);
    lemma_placement(ps, i);
    lemma_marks_prefix(ps, i);
    lemma_cache_right(
        table.marks(),
        ps[i],
        marks_of(ps.take(i)).len() as int,
        c,
        table.original@,
        table.add@,
    );
    assert(table.original.len() <= usize::MAX);
    assert(table.add.len() <= usize::MAX);
}

} // verus!
