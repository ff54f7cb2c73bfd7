//! Reading a document of characters by grapheme clusters.
use unicode_segmentation::UnicodeSegmentation;
use vstd::prelude::*;
use vstd::std_specs::iter::IteratorSpec;
use vstd::utf8::encode_utf8;

use crate::iter::refs;
use crate::search::{
    all_hits, hits_below, lemma_hit, lemma_no_hit, lemma_refs_skip, matches_at, same,
};
use crate::table::PieceTable;

verus! {

/// The extended grapheme clusters of `text`, in order, as the Unicode segmentation rules divide it.
pub uninterp spec fn grapheme_clusters(text: Seq<char>) -> Seq<Seq<char>>;

/// What the strings hold.
pub open spec fn views(strings: Seq<String>) -> Seq<Seq<char>> {
    strings.map_values(|s: String| s@)
}

/// The parts, one after the other.
pub open spec fn joined_parts(parts: Seq<Seq<char>>) -> Seq<char>
    decreases parts.len(),
{
    if parts.len() == 0 {
        Seq::empty()
    } else {
        joined_parts(parts.drop_last()) + parts.last()
    }
}

/// The extended grapheme clusters of `text`, by [`UnicodeSegmentation::graphemes`]. The clusters
/// depend on `text` alone; none is empty, and together they are `text`.
#[verifier::external_body]
fn split_graphemes(text: &str) -> (out: Vec<String>)
    ensures
        views(out@) == grapheme_clusters(text@),
        forall|i: int| 0 <= i < out@.len() ==> (#[trigger] out@[i])@.len() > 0,
        joined_parts(views(out@)) == text@,
{
    UnicodeSegmentation::graphemes(text, true).map(ToOwned::to_owned).collect()
}

/// How many bytes the clusters before cluster `i` of `text` take up.
pub open spec fn cluster_start(text: Seq<char>, i: int) -> nat {
    encode_utf8(joined_parts(grapheme_clusters(text).take(i))).len()
}

/// The byte offsets of the extended grapheme clusters of `text`, by
/// [`UnicodeSegmentation::grapheme_indices`]: one for each cluster, namely how many bytes of
/// `text` come before it, which are not all of them. There is one unless `text` is empty.
#[verifier::external_body]
pub(crate) fn grapheme_starts(text: &str) -> (out: Vec<usize>)
    ensures
        out@.len() == grapheme_clusters(text@).len(),
        forall|i: int|
            0 <= i < out@.len() ==> (#[trigger] out@[i]) == cluster_start(text@, i) && out@[i]
                < encode_utf8(text@).len(),
        text@.len() > 0 ==> out@.len() > 0,
{
    UnicodeSegmentation::grapheme_indices(text, true).map(|(at, _)| at).collect()
}

/// The strings from `start` up to, but not including, `end`, one after the other.
pub fn concat_range(parts: &Vec<String>, start: usize, end: usize) -> (s: String)
    requires
        start <= end <= parts@.len(),
    ensures
        s@ == joined_parts(views(parts@).subrange(start as int, end as int)),
{
    let mut s = String::new();
    let ghost all = views(parts@);
    assert(all.subrange(start as int, start as int) =~= Seq::empty());
    for i in start..end
        invariant
            start <= i <= end <= parts@.len(),
            all == views(parts@),
            s@ == joined_parts(all.subrange(start as int, i as int)),
    {
        s.append(parts[i].as_str());
        assert(all.subrange(start as int, i + 1).drop_last() =~= all.subrange(
            start as int,
            i as int,
        ));
    }
    s
}

/// Whether the strings of `part` are those of `whole` from place `at` on.
fn run_matches(whole: &Vec<String>, part: &Vec<String>, at: usize) -> (b: bool)
    requires
        at + part@.len() <= whole@.len(),
    ensures
        b == matches_at(views(whole@), views(part@), at as int, same()),
{
    let ghost t = views(whole@);
    let ghost p = views(part@);
    for j in 0..part.len()
        invariant
            t == views(whole@),
            p == views(part@),
            at + part@.len() <= whole@.len(),
            forall|k: int| 0 <= k < j ==> t[at + k] == #[trigger] p[k],
    {
        assert(at + part.len() <= whole.len());
        if whole[at + j] != part[j] {
            proof {
                if matches_at(t, p, at as int, same()) {
                    assert(same::<Seq<char>>()(t[at + p.len() - p.len() + j], p[j as int]));
                }
            }
            return false;
        }
    }
    proof {
        assert forall|k: int| 0 <= k < p.len() implies same::<Seq<char>>()(
            t[at + p.len() - p.len() + k],
            #[trigger] p[k],
        ) by {
            assert(t[at + k] == p[k]);
        }
    }
    true
}

/// The places at which the strings of `part` follow one another in `whole`, in order; none if
/// `part` is empty.
pub fn find_run(whole: &Vec<String>, part: &Vec<String>) -> (out: Vec<usize>)
    ensures
        part@.len() == 0 ==> out@.len() == 0,
        part@.len() > 0 ==> all_hits(out@, views(whole@), views(part@), same()),
{
    let mut out: Vec<usize> = Vec::new();
    let ghost t = views(whole@);
    let ghost p = views(part@);
    if part.len() == 0 || part.len() > whole.len() {
        return out;
    }
    let last = whole.len() - part.len();
    let mut i: usize = 0;
    while i <= last
        invariant
            t == views(whole@),
            p == views(part@),
            0 < part@.len() <= whole@.len(),
            last == whole@.len() - part@.len(),
            i <= last + 1,
            hits_below(out@, t, p, i as int, same()),
        decreases last + 1 - i,
    {
        assert(last < whole.len());
        if run_matches(whole, part, i) {
            proof {
                lemma_hit(out@, t, p, i as int, same());
            }
            out.push(i);
        } else {
            proof {
                lemma_no_hit(out@, t, p, i as int, same());
            }
        }
        i += 1;
    }
    assert(all_hits(out@, t, p, same())) by {
        assert forall|k: int| 0 <= k < t.len() && #[trigger] matches_at(
            t,
            p,
            k,
            same(),
        ) implies out@.contains(k as usize) by {
            assert(k < i);
        }
    }
    out
}

impl PieceTable<char> {
    /// The text of the document.
    pub(crate) fn collect_text(&self) -> (s: String)
        requires
            self.wf(),
        ensures
            s@ == self@,
    {
        let mut s = String::new();
        let ghost t = self@;
        let mut items = self.iter();
        assert(t.skip(0) =~= t);
        assert(s@ =~= t.take(0));
        loop
            invariant
                t == self@,
                s@.len() <= t.len(),
                s@ == t.take(s@.len() as int),
                items.remaining() == refs(t.skip(s@.len() as int)),
            decreases t.len() - s@.len(),
        {
            match items.next() {
                None => {
                    proof {
                        lemma_refs_skip(t, s@.len() as int);
                        assert(s@ =~= t);
                    }
                    return s;
                },
                Some(c) => {
                    proof {
                        lemma_refs_skip(t, s@.len() as int);
                        assert(t.take(s@.len() as int).push(*c) =~= t.take(s@.len() as int + 1));
                    }
                    s.push(*c);
                },
            }
        }
    }

    /// The number of grapheme clusters.
    pub fn grapheme_count(&self) -> (n: usize)
        requires
            self.wf(),
        ensures
            n == grapheme_clusters(self@).len(),
    {
        let parts = self.graphemes();
        assert(views(parts@).len() == parts@.len());
        parts.len()
    }

    /// The grapheme clusters, in order.
    pub fn graphemes(&self) -> (out: Vec<String>)
        requires
            self.wf(),
        ensures
            views(out@) == grapheme_clusters(self@),
            forall|i: int| 0 <= i < out@.len() ==> (#[trigger] out@[i])@.len() > 0,
            joined_parts(views(out@)) == self@,
    {
        let text = self.collect_text();
        split_graphemes(text.as_str())
    }

    /// Grapheme cluster `index`.
    pub fn grapheme_at(&self, index: usize) -> (r: Option<String>)
        requires
            self.wf(),
        ensures
            match r {
                Some(s) => index < grapheme_clusters(self@).len() && s@ == grapheme_clusters(
                    self@,
                )[index as int],
                None => index >= grapheme_clusters(self@).len(),
            },
    {
        let parts = self.graphemes();
        assert(views(parts@).len() == parts@.len());
        if index < parts.len() {
            assert(views(parts@)[index as int] == parts@[index as int]@);
            Some(parts[index].clone())
        } else {
            None
        }
    }

    /// The text of the grapheme clusters from `start` up to, but not including, `end`.
    pub fn grapheme_range(&self, start: usize, end: usize) -> (s: String)
        requires
            self.wf(),
            start <= end <= grapheme_clusters(self@).len(),
        ensures
            s@ == joined_parts(grapheme_clusters(self@).subrange(start as int, end as int)),
            start == 0 && end == grapheme_clusters(self@).len() ==> s@ == self@,
    {
        let parts = self.graphemes();
        assert(views(parts@).len() == parts@.len());
        assert(views(parts@).subrange(0, parts@.len() as int) =~= views(parts@));
        concat_range(&parts, start, end)
    }

    /// As [`PieceTable::grapheme_range`]; nothing if there is no such range.
    pub fn try_grapheme_range(&self, start: usize, end: usize) -> (r: Option<String>)
        requires
            self.wf(),
        ensures
            match r {
                Some(s) => {
                    &&& start <= end <= grapheme_clusters(self@).len()
                    &&& s@ == joined_parts(
                        grapheme_clusters(self@).subrange(start as int, end as int),
                    )
                },
                None => !(start <= end <= grapheme_clusters(self@).len()),
            },
    {
        if start <= end && end <= self.grapheme_count() {
            Some(self.grapheme_range(start, end))
        } else {
            None
        }
    }

    /// The places, counted in grapheme clusters, at which those of `pattern` are found, in order;
    /// none if `pattern` is empty.
    pub fn find_grapheme_substring(&self, pattern: &str) -> (out: Vec<usize>)
        requires
            self.wf(),
        ensures
            pattern@.len() == 0 ==> out@.len() == 0,
            pattern@.len() > 0 ==> all_hits(
                out@,
                grapheme_clusters(self@),
                grapheme_clusters(pattern@),
                same(),
            ),
            pattern@.len() > 0 ==> grapheme_clusters(pattern@).len() > 0,
    {
        if pattern.is_empty() {
            return Vec::new();
        }
        let text_g = self.graphemes();
        let pat_g = split_graphemes(pattern);
        proof {
            if pat_g@.len() == 0 {
                assert(views(pat_g@) =~= Seq::empty());
            }
        }
        find_run(&text_g, &pat_g)
    }
}

/// The parts one after the other are their concatenation.
pub proof fn lemma_joined_parts(parts: Seq<Seq<char>>)
    ensures
        joined_parts(parts) == parts.flatten(),
    decreases parts.len(),
{
    parts.lemma_flatten_and_flatten_alt_are_equivalent();
    lemma_joined_alt(parts);
}

proof fn lemma_joined_alt(parts: Seq<Seq<char>>)
    ensures
        joined_parts(parts) == parts.flatten_alt(),
    decreases parts.len(),
{
    if parts.len() > 0 {
        lemma_joined_alt(parts.drop_last());
    }
}

} // verus!
