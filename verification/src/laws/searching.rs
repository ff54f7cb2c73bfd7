//! What searching for a pattern finds.
use vstd::prelude::*;

use crate::bytes::SearchAlgorithm;
use crate::compact::CompactPieceTable;
use crate::graphemes::{find_run, grapheme_clusters, views};
use crate::laws::text::held;
use crate::search::{
    all_hits, judges, lemma_judges_bytes, lemma_judges_chars, matches_at, same, Relation,
};
use crate::table::PieceTable;

verus! {

/// The elements of `t` from position `i` on are, by `rel`, those of `p`.
pub open spec fn agrees_at<T>(t: Seq<T>, p: Seq<T>, i: int, rel: Relation<T>) -> bool {
    &&& 0 <= i
    &&& i + p.len() <= t.len()
    &&& forall|j: int| 0 <= j < p.len() ==> rel(t[i + j], #[trigger] p[j])
}

/// `out` lists the positions at which the elements of `t` are, by `rel`, those of `p`: each of
/// them once, in order, and no other.
pub open spec fn lists_agreements<T>(
    out: Seq<usize>,
    t: Seq<T>,
    p: Seq<T>,
    rel: Relation<T>,
) -> bool {
    &&& forall|a: int, b: int| #![trigger out[a], out[b]] 0 <= a < b < out.len() ==> out[a] < out[b]
    &&& forall|a: int| 0 <= a < out.len() ==> agrees_at(t, p, (#[trigger] out[a]) as int, rel)
    &&& forall|i: int| #[trigger]
        agrees_at(t, p, i, rel) ==> exists|a: int| 0 <= a < out.len() && #[trigger] out[a] == i
}

/// `out` lists the positions at which `p` is a part of `t`: each of them once, in order, and no
/// other; none if `p` is empty.
pub open spec fn lists_occurrences<T>(out: Seq<usize>, t: Seq<T>, p: Seq<T>) -> bool {
    if p.len() == 0 {
        out.len() == 0
    } else {
        &&& forall|a: int, b: int|
            #![trigger out[a], out[b]]
            0 <= a < b < out.len() ==> out[a] < out[b]
        &&& forall|a: int|
            0 <= a < out.len() ==> (#[trigger] out[a]) + p.len() <= t.len() && t.subrange(
                out[a] as int,
                out[a] + p.len(),
            ) == p
        &&& forall|i: int|
            0 <= i && i + p.len() <= t.len() && #[trigger] t.subrange(i, i + p.len()) == p
                ==> exists|a: int| 0 <= a < out.len() && #[trigger] out[a] == i
    }
}

proof fn lemma_agrees<T>(t: Seq<T>, p: Seq<T>, i: int, rel: Relation<T>)
    requires
        p.len() > 0,
    ensures
        matches_at(t, p, i, rel) <==> agrees_at(t, p, i, rel),
{
    if matches_at(t, p, i, rel) {
        assert forall|j: int| 0 <= j < p.len() implies rel(t[i + j], #[trigger] p[j]) by {
            assert(rel(t[i + p.len() - p.len() + j], p[j]));
        }
    }
    if agrees_at(t, p, i, rel) {
        assert forall|j: int| 0 <= j < p.len() implies rel(
            t[i + p.len() - p.len() + j],
            #[trigger] p[j],
        ) by {
            assert(rel(t[i + j], p[j]));
        }
    }
}

proof fn lemma_lists_agreements<T>(out: Seq<usize>, t: Seq<T>, p: Seq<T>, rel: Relation<T>)
    requires
        p.len() > 0,
        t.len() <= usize::MAX,
        all_hits(out, t, p, rel),
    ensures
        lists_agreements(out, t, p, rel),
{
    assert forall|a: int| 0 <= a < out.len() implies agrees_at(
        t,
        p,
        (#[trigger] out[a]) as int,
        rel,
    ) by {
        lemma_agrees(t, p, out[a] as int, rel);
    }
    assert forall|i: int| #[trigger] agrees_at(t, p, i, rel) implies exists|a: int|
        0 <= a < out.len() && #[trigger] out[a] == i by {
        lemma_agrees(t, p, i, rel);
        assert(out.contains(i as usize));
        let a = choose|a: int| 0 <= a < out.len() && out[a] == i as usize;
        assert(out[a] == i);
    }
}

proof fn lemma_lists_occurrences<T>(out: Seq<usize>, t: Seq<T>, p: Seq<T>)
    requires
        p.len() == 0 ==> out.len() == 0,
        p.len() > 0 ==> all_hits(out, t, p, same()),
        t.len() <= usize::MAX,
    ensures
        lists_occurrences(out, t, p),
{
    if p.len() > 0 {
        lemma_lists_agreements(out, t, p, same());
        assert forall|a: int| 0 <= a < out.len() implies (#[trigger] out[a]) + p.len() <= t.len()
            && t.subrange(out[a] as int, out[a] + p.len()) == p by {
            let i = out[a] as int;
            assert(agrees_at(t, p, i, same()));
            assert forall|j: int| 0 <= j < p.len() implies #[trigger] t.subrange(
                i,
                i + p.len(),
            )[j] == p[j] by {
                assert(same::<T>()(t[i + j], p[j]));
            }
            assert(t.subrange(i, i + p.len()) =~= p);
        }
        assert forall|i: int|
            0 <= i && i + p.len() <= t.len() && #[trigger] t.subrange(i, i + p.len())
                == p implies exists|a: int| 0 <= a < out.len() && #[trigger] out[a] == i by {
            assert forall|j: int| 0 <= j < p.len() implies same::<T>()(
                t[i + j],
                #[trigger] p[j],
            ) by {
                assert(t.subrange(i, i + p.len())[j] == t[i + j]);
            }
            assert(agrees_at(t, p, i, same()));
        }
    }
}

/// A search lists the positions at which the elements of the document are, by the relation that
/// `==` answers, those of the pattern, where that relation is symmetric and transitive.
pub proof fn law_search_lists_agreements<T: Clone + PartialEq>(
    table: &PieceTable<T>,
    compact: &CompactPieceTable<T>,
    lens: (usize, usize),
    pattern: &[T],
    hits: (Vec<usize>, Vec<usize>),
    rel: Relation<T>,
)
    requires
        call_ensures(PieceTable::<T>::len, (table,), lens.0),
        call_ensures(CompactPieceTable::<T>::len, (compact,), lens.1),
        call_ensures(PieceTable::<T>::find_substring, (table, pattern), hits.0),
        call_ensures(CompactPieceTable::<T>::find_substring, (compact, pattern), hits.1),
        forall|x: &T, y: &T, r: bool| #[trigger]
            call_ensures(<T as PartialEq>::eq, (x, y), r) ==> r == rel(*x, *y),
        forall|x: T, y: T| #[trigger] rel(x, y) ==> rel(y, x),
        forall|x: T, y: T, z: T| #[trigger] rel(x, y) && #[trigger] rel(y, z) ==> rel(x, z),
    ensures
        pattern@.len() == 0 ==> hits.0@.len() == 0 && hits.1@.len() == 0,
        pattern@.len() > 0 ==> {
            &&& lists_agreements(hits.0@, table@, pattern@, rel)
            &&& lists_agreements(hits.1@, compact@, pattern@, rel)
        },
{
    assert(judges::<T>(rel));
    if pattern@.len() > 0 {
        lemma_lists_agreements(hits.0@, table@, pattern@, rel);
        lemma_lists_agreements(hits.1@, compact@, pattern@, rel);
    }
}

/// A search in a document of characters lists the positions at which the pattern occurs.
pub proof fn law_char_search_lists_occurrences(
    table: &PieceTable<char>,
    compact: &CompactPieceTable<char>,
    lens: (usize, usize),
    pattern: &[char],
    hits: (Vec<usize>, Vec<usize>),
)
    requires
        call_ensures(PieceTable::<char>::len, (table,), lens.0),
        call_ensures(CompactPieceTable::<char>::len, (compact,), lens.1),
        call_ensures(PieceTable::<char>::find_substring, (table, pattern), hits.0),
        call_ensures(CompactPieceTable::<char>::find_substring, (compact, pattern), hits.1),
    ensures
        lists_occurrences(hits.0@, table@, pattern@),
        lists_occurrences(hits.1@, compact@, pattern@),
{
    lemma_judges_chars();
    lemma_lists_occurrences(hits.0@, table@, pattern@);
    lemma_lists_occurrences(hits.1@, compact@, pattern@);
}

/// Every way to search a document of bytes lists the positions at which the pattern occurs.
pub proof fn law_byte_search_lists_occurrences(
    table: &PieceTable<u8>,
    compact: &CompactPieceTable<u8>,
    lens: (usize, usize),
    pattern: &[u8],
    algorithm: SearchAlgorithm,
    hits: (Vec<usize>, Vec<usize>),
    chosen: Vec<usize>,
    optimized: Vec<usize>,
)
    requires
        call_ensures(PieceTable::<u8>::len, (table,), lens.0),
        call_ensures(CompactPieceTable::<u8>::len, (compact,), lens.1),
        call_ensures(PieceTable::<u8>::find_substring, (table, pattern), hits.0),
        call_ensures(CompactPieceTable::<u8>::find_substring, (compact, pattern), hits.1),
        call_ensures(
            PieceTable::<u8>::find_substring_with,
            (table, pattern, algorithm),
            chosen,
        ),
        call_ensures(PieceTable::<u8>::find_substring_optimized, (table, pattern), optimized),
    ensures
        lists_occurrences(hits.0@, table@, pattern@),
        lists_occurrences(hits.1@, compact@, pattern@),
        lists_occurrences(chosen@, table@, pattern@),
        lists_occurrences(optimized@, table@, pattern@),
{
    lemma_judges_bytes();
    lemma_lists_occurrences(hits.0@, table@, pattern@);
    lemma_lists_occurrences(hits.1@, compact@, pattern@);
    lemma_lists_occurrences(chosen@, table@, pattern@);
    lemma_lists_occurrences(optimized@, table@, pattern@);
}

/// The places of a run of strings are those at which its strings follow one another.
pub proof fn law_find_run_lists_occurrences(
    whole: &Vec<String>,
    part: &Vec<String>,
    out: Vec<usize>,
)
    requires
        call_ensures(find_run, (whole, part), out),
    ensures
        lists_occurrences(
            out@,
            held(whole@, 0, whole@.len() as int),
            held(part@, 0, part@.len() as int),
        ),
{
    assert(whole.len() <= usize::MAX);
    assert(views(whole@) =~= held(whole@, 0, whole@.len() as int));
    assert(views(part@) =~= held(part@, 0, part@.len() as int));
    lemma_lists_occurrences(out@, views(whole@), views(part@));
}

/// A search by clusters lists the places at which the clusters of the pattern occur among those of
/// the document; none if the pattern is empty.
pub proof fn law_cluster_search_lists_occurrences(
    table: &PieceTable<char>,
    clusters: Vec<String>,
    pattern: &str,
    out: Vec<usize>,
)
    requires
        call_ensures(PieceTable::<char>::graphemes, (table,), clusters),
        call_ensures(PieceTable::<char>::find_grapheme_substring, (table, pattern), out),
    ensures
        pattern@.len() == 0 ==> out@.len() == 0,
        pattern@.len() > 0 ==> grapheme_clusters(pattern@).len() > 0 && lists_occurrences(
            out@,
            held(clusters@, 0, clusters@.len() as int),
            grapheme_clusters(pattern@),
        ),
{
    assert(clusters.len() <= usize::MAX);
    assert(views(clusters@) =~= held(clusters@, 0, clusters@.len() as int));
    if pattern@.len() > 0 {
        lemma_lists_occurrences(out@, views(clusters@), grapheme_clusters(pattern@));
    }
}

} // verus!
