//! What reading a document by grapheme clusters and searching it for regular expressions gives.
use vstd::prelude::*;
use vstd::utf8::encode_utf8;

use crate::graphemes::{concat_range, grapheme_clusters, lemma_joined_parts, views};
use crate::regexes::{
    cluster_bounds, count_below, grapheme_spans, lemma_count_parts, lemma_starts_ascend,
    regex_grapheme_result, regex_matches, regex_result, touched, RegexError,
};
use crate::table::PieceTable;

verus! {

/// The sum of the lengths of the parts.
pub open spec fn total_len(parts: Seq<Seq<char>>) -> nat
    decreases parts.len(),
{
    if parts.len() == 0 {
        0
    } else {
        parts.first().len() + total_len(parts.drop_first())
    }
}

proof fn lemma_flatten_len(parts: Seq<Seq<char>>)
    ensures
        parts.flatten().len() == total_len(parts),
    decreases parts.len(),
{
    if parts.len() > 0 {
        lemma_flatten_len(parts.drop_first());
    }
}

proof fn lemma_flatten_add(a: Seq<Seq<char>>, b: Seq<Seq<char>>)
    ensures
        (a + b).flatten() == a.flatten() + b.flatten(),
    decreases a.len(),
{
    if a.len() == 0 {
        assert(a + b =~= b);
        assert(a.flatten() + b.flatten() =~= b.flatten());
    } else {
        assert((a + b).drop_first() =~= a.drop_first() + b);
        assert((a + b).first() == a.first());
        lemma_flatten_add(a.drop_first(), b);
        assert((a + b).flatten() =~= a.flatten() + b.flatten());
    }
}

/// What the strings from `start` up to `end` hold.
pub open spec fn held(parts: Seq<String>, start: int, end: int) -> Seq<Seq<char>> {
    Seq::new((end - start) as nat, |i: int| parts[start + i]@)
}

/// Joining strings is concatenation: the result holds all that each of them holds, in order, and
/// is as long as they are together.
pub proof fn law_concat_range_concatenates(
    parts: &Vec<String>,
    start: usize,
    end: usize,
    s: String,
)
    requires
        start <= end <= parts@.len(),
        call_ensures(concat_range, (parts, start, end), s),
    ensures
        s@ == held(parts@, start as int, end as int).flatten(),
        s@.len() == total_len(held(parts@, start as int, end as int)),
        start == end ==> s@.len() == 0,
        end == start + 1 ==> s@ == parts@[start as int]@,
{
    let all = held(parts@, start as int, end as int);
    assert(views(parts@).subrange(start as int, end as int) =~= all);
    lemma_joined_parts(all);
    lemma_flatten_len(all);
    if end == start + 1 {
        all.lemma_flatten_one_element();
        assert(all.first() == parts@[start as int]@);
    }
}

/// Joining two neighbouring ranges of strings and joining both at once give the same text.
pub proof fn law_concat_ranges_add_up(
    parts: &Vec<String>,
    start: usize,
    mid: usize,
    end: usize,
    first: String,
    second: String,
    both: String,
)
    requires
        start <= mid <= end <= parts@.len(),
        call_ensures(concat_range, (parts, start, mid), first),
        call_ensures(concat_range, (parts, mid, end), second),
        call_ensures(concat_range, (parts, start, end), both),
    ensures
        both@ == first@ + second@,
{
    law_concat_range_concatenates(parts, start, mid, first);
    law_concat_range_concatenates(parts, mid, end, second);
    law_concat_range_concatenates(parts, start, end, both);
    let a = held(parts@, start as int, mid as int);
    let b = held(parts@, mid as int, end as int);
    assert(held(parts@, start as int, end as int) =~= a + b);
    lemma_flatten_add(a, b);
}

/// The clusters of a document are not empty and, one after the other, are its text; there are as
/// many as are counted, and each is the one that is read at its place.
pub proof fn law_clusters_make_up_the_text(
    table: &PieceTable<char>,
    clusters: Vec<String>,
    count: usize,
    index: usize,
    one: Option<String>,
)
    requires
        call_ensures(PieceTable::<char>::graphemes, (table,), clusters),
        call_ensures(PieceTable::<char>::grapheme_count, (table,), count),
        call_ensures(PieceTable::<char>::grapheme_at, (table, index), one),
    ensures
        count == clusters@.len(),
        held(clusters@, 0, clusters@.len() as int) == grapheme_clusters(table@),
        forall|i: int| 0 <= i < clusters@.len() ==> (#[trigger] clusters@[i])@.len() > 0,
        held(clusters@, 0, clusters@.len() as int).flatten() == table@,
        one is Some <==> index < clusters@.len(),
        one matches Some(s) ==> s@ == clusters@[index as int]@,
{
    let all = held(clusters@, 0, clusters@.len() as int);
    assert(views(clusters@) =~= all);
    assert(views(clusters@).len() == clusters@.len());
    lemma_joined_parts(all);
    if index < clusters@.len() {
        assert(views(clusters@)[index as int] == clusters@[index as int]@);
    }
}

/// The text of a range of clusters is what the clusters in it hold, one after the other, and is as
/// long as they are together. Neighbouring ranges add up, and the range of all clusters is the
/// whole text. There is such a text if and only if there is such a range.
pub proof fn law_grapheme_range_concatenates(
    table: &PieceTable<char>,
    clusters: Vec<String>,
    start: usize,
    end: usize,
    s: String,
    tried: Option<String>,
)
    requires
        call_ensures(PieceTable::<char>::graphemes, (table,), clusters),
        call_ensures(PieceTable::<char>::grapheme_range, (table, start, end), s),
        call_ensures(PieceTable::<char>::try_grapheme_range, (table, start, end), tried),
    ensures
        tried is Some <==> start <= end <= clusters@.len(),
        start <= end <= clusters@.len() ==> {
            let part = held(clusters@, start as int, end as int);
            &&& s@ == part.flatten()
            &&& s@.len() == total_len(part)
            &&& tried matches Some(t) && t@ == s@
        },
        start == 0 && end == clusters@.len() ==> s@ == table@,
{
    assert(views(clusters@).len() == clusters@.len());
    if start <= end && end <= clusters@.len() {
        let part = held(clusters@, start as int, end as int);
        assert(grapheme_clusters(table@).subrange(start as int, end as int) =~= part);
        lemma_joined_parts(part);
        lemma_flatten_len(part);
    }
}

/// The result of a search for a regular expression is passed on as it is: there are matches
/// exactly if the expression was not refused, they are those that were found, however many, and a
/// refusal has the reason that was given.
pub proof fn law_regex_result_passes_on(
    found: Result<Vec<(usize, usize)>, regex::Error>,
    r: Result<Vec<(usize, usize)>, RegexError>,
)
    requires
        call_ensures(regex_result, (found,), r),
    ensures
        r is Ok <==> found is Ok,
        found matches Ok(v) ==> (r matches Ok(w) && w@ == v@),
        found matches Err(e) ==> (r matches Err(x) && x.source == e),
{
}

/// The range `(g, h)` of places among the ascending numbers `bounds` lies as tightly as it can
/// around the span from `s` up to `e`: `g` is the last place at or before `s`, or the first of all,
/// and `h` is the first at or after `e`, or the end.
pub open spec fn tight(bounds: Seq<usize>, span: (usize, usize), range: (usize, usize)) -> bool {
    let (s, e) = span;
    let (g, h) = range;
    &&& forall|k: int| g < k < bounds.len() ==> (#[trigger] bounds[k]) > s
    &&& g > 0 ==> g < bounds.len() && bounds[g as int] <= s
    &&& h <= bounds.len()
    &&& forall|k: int| 0 <= k < h ==> (#[trigger] bounds[k]) < e
    &&& h < bounds.len() ==> bounds[h as int] >= e
}

/// The range of clusters for a span of bytes lies as tightly around it as it can. For a match of
/// some bytes within the clusters that begin and end at `bounds` it is the smallest range that
/// covers it: the match begins in its first cluster and ends in its last.
pub proof fn law_grapheme_spans_cover(
    bounds: &Vec<usize>,
    spans: &Vec<(usize, usize)>,
    out: Vec<(usize, usize)>,
)
    requires
        forall|i: int, j: int|
            #![trigger bounds@[i], bounds@[j]]
            0 <= i <= j < bounds@.len() ==> bounds@[i] <= bounds@[j],
        call_ensures(grapheme_spans, (bounds, spans), out),
    ensures
        out@.len() == spans@.len(),
        forall|i: int|
            0 <= i < spans@.len() ==> tight(bounds@, #[trigger] spans@[i], out@[i]),
        forall|i: int|
            0 <= i < spans@.len() && bounds@.len() > 0 && bounds@[0] <= (#[trigger] spans@[i]).0
                < spans@[i].1 <= bounds@.last() ==> {
                let (s, e) = spans@[i];
                let (g, h) = out@[i];
                &&& g < h < bounds@.len()
                &&& bounds@[g as int] <= s < bounds@[g + 1]
                &&& bounds@[h - 1] < e <= bounds@[h as int]
            },
{
    assert(bounds.len() <= usize::MAX);
    assert forall|i: int| 0 <= i < spans@.len() implies tight(
        bounds@,
        #[trigger] spans@[i],
        out@[i],
    ) by {
        lemma_count_parts(bounds@, spans@[i].0 + 1);
        lemma_count_parts(bounds@, spans@[i].1 as int);
        assert(out@[i] == touched(bounds@, spans@[i]));
    }
    assert forall|i: int|
        0 <= i < spans@.len() && bounds@.len() > 0 && bounds@[0] <= (#[trigger] spans@[i]).0
            < spans@[i].1 <= bounds@.last() implies {
        let (s, e) = spans@[i];
        let (g, h) = out@[i];
        &&& g < h < bounds@.len()
        &&& bounds@[g as int] <= s < bounds@[g + 1]
        &&& bounds@[h - 1] < e <= bounds@[h as int]
    } by {
        assert(tight(bounds@, spans@[i], out@[i]));
        let (s, e) = spans@[i];
        let (g, h) = out@[i];
        let last = bounds@.len() - 1;
        assert(bounds@[last] >= e);
        assert(h <= last);
        assert(bounds@[0] < e);
        assert(bounds@[g as int] <= s);
        assert(g < last);
        assert(h > g) by {
            if h <= g {
                assert(bounds@[h as int] <= bounds@[g as int]);
            }
        }
        assert(bounds@[g + 1] > s);
    }
}

/// As [`law_regex_result_passes_on`], where each match is given as the range of clusters that lies
/// as tightly around it as it can.
pub proof fn law_regex_grapheme_result_passes_on(
    found: Result<Vec<(usize, usize)>, regex::Error>,
    bounds: &Vec<usize>,
    r: Result<Vec<(usize, usize)>, RegexError>,
)
    requires
        forall|i: int, j: int|
            #![trigger bounds@[i], bounds@[j]]
            0 <= i <= j < bounds@.len() ==> bounds@[i] <= bounds@[j],
        call_ensures(regex_grapheme_result, (found, bounds), r),
    ensures
        r is Ok <==> found is Ok,
        found matches Err(e) ==> (r matches Err(x) && x.source == e),
        found matches Ok(v) ==> (r matches Ok(w) && {
            &&& w@.len() == v@.len()
            &&& forall|i: int| 0 <= i < v@.len() ==> tight(bounds@, #[trigger] v@[i], w@[i])
        }),
{
    assert(bounds.len() <= usize::MAX);
    if let (Ok(v), Ok(w)) = (found, r) {
        assert forall|i: int| 0 <= i < v@.len() implies tight(
            bounds@,
            #[trigger] v@[i],
            w@[i],
        ) by {
            lemma_count_parts(bounds@, v@[i].0 + 1);
            lemma_count_parts(bounds@, v@[i].1 as int);
            assert(w@[i] == touched(bounds@, v@[i]));
        }
    }
}

/// How many bytes the first `k` clusters take up.
pub open spec fn bytes_before(clusters: Seq<Seq<char>>, k: int) -> nat {
    encode_utf8(clusters.take(k).flatten()).len()
}

/// A search for a regular expression by clusters gives, for each match of some characters, the
/// smallest range of clusters that covers it: the match begins in the first cluster of the range,
/// and ends in the last.
pub proof fn law_find_regex_grapheme_covers(
    table: &PieceTable<char>,
    pattern: &str,
    clusters: Vec<String>,
    r: Result<Vec<(usize, usize)>, RegexError>,
    i: int,
)
    requires
        call_ensures(PieceTable::<char>::graphemes, (table,), clusters),
        call_ensures(PieceTable::<char>::find_regex_grapheme, (table, pattern), r),
        0 <= i < regex_matches(pattern@, table@).len(),
        regex_matches(pattern@, table@)[i].0 < regex_matches(pattern@, table@)[i].1,
    ensures
        r matches Ok(v) ==> {
            let all = held(clusters@, 0, clusters@.len() as int);
            let (s, e) = regex_matches(pattern@, table@)[i];
            let (g, h) = v@[i];
            &&& i < v@.len()
            &&& g < h <= clusters@.len()
            &&& bytes_before(all, g as int) <= s < bytes_before(all, g + 1)
            &&& bytes_before(all, h - 1) < e <= bytes_before(all, h as int)
        },
{
    if let Ok(v) = r {
        let all = held(clusters@, 0, clusters@.len() as int);
        let bounds = cluster_bounds(table@);
        let n = clusters@.len() as int;
        let span = regex_matches(pattern@, table@)[i];
        assert(views(clusters@) =~= all);
        assert(all == grapheme_clusters(table@));
        lemma_joined_parts(all);
        assert(all.take(n) =~= all);
        assert forall|k: int| 0 <= k <= n implies (#[trigger] bounds[k]) == bytes_before(all, k) by {
            lemma_joined_parts(all.take(k));
        }
        assert forall|a: int, b: int|
            #![trigger bounds[a], bounds[b]]
            0 <= a <= b < bounds.len() implies bounds[a] <= bounds[b] by {
            lemma_starts_ascend(table@, a, b);
            lemma_joined_parts(all.take(a));
            lemma_joined_parts(all.take(b));
        }
        assert(clusters.len() <= usize::MAX);
        assert(v@[i] == touched(bounds, span));
        lemma_count_parts(bounds, span.0 + 1);
        lemma_count_parts(bounds, span.1 as int);
        assert(span.1 <= encode_utf8(table@).len());
        assert(all.take(0) =~= Seq::empty());
        assert(bounds[n] >= span.1);
        assert(bounds[0] == 0);
        let (g, h) = v@[i];
        assert(count_below(bounds, span.1 as int) <= n);
        assert(count_below(bounds, span.0 + 1) >= 1);
        assert(bounds[g as int] <= span.0);
        assert(g < n);
        assert(bounds[g + 1] > span.0);
        assert(h > g) by {
            if h <= g {
                assert(bounds[h as int] <= bounds[g as int]);
            }
        }
        assert(bounds[h - 1] < span.1);
        assert(bounds[h as int] >= span.1);
        assert(bounds[g as int] == bytes_before(all, g as int));
        assert(bounds[h as int] == bytes_before(all, h as int));
    }
}

} // verus!
