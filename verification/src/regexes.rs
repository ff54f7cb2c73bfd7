//! Finding a regular expression in a document.
use vstd::prelude::*;
use vstd::utf8::encode_utf8;

use crate::graphemes::{cluster_start, grapheme_clusters, grapheme_starts, joined_parts};
use crate::table::PieceTable;

verus! {

#[verifier::external_type_specification]
#[verifier::external_body]
pub struct ExRegexError(regex::Error);

/// Why a regular expression was refused.
#[derive(Debug, PartialEq)]
pub struct RegexError {
    pub source: regex::Error,
}

/// Where the regular expression `pattern` matches in `text`: the byte offsets at which the
/// successive matches begin and end.
pub uninterp spec fn regex_matches(pattern: Seq<char>, text: Seq<char>) -> Seq<(usize, usize)>;

/// Where the regular expression `pattern` matches in the bytes `text`: the offsets at which the
/// successive matches begin and end.
pub uninterp spec fn byte_regex_matches(pattern: Seq<char>, text: Seq<u8>) -> Seq<(usize, usize)>;

/// The spans lie within `len`, one after the other, and none ends before it begins.
pub open spec fn spans_ok(spans: Seq<(usize, usize)>, len: int) -> bool {
    &&& forall|i: int| 0 <= i < spans.len() ==> (#[trigger] spans[i]).0 <= spans[i].1 <= len
    &&& forall|i: int, j: int|
        #![trigger spans[i], spans[j]]
        0 <= i < j < spans.len() ==> spans[i].1 <= spans[j].0
}

/// Compiles `pattern` by [`regex::Regex::new`], and lists the matches that
/// [`regex::Regex::find_iter`] gives in `text`. Where these are depends on `pattern` and `text`
/// alone; they lie within `text` and do not overlap. Which patterns are refused is not stated: a
/// valid one is refused if it would take too much memory, which depends on the machine.
#[verifier::external_body]
fn regex_spans(pattern: &str, text: &str) -> (r: Result<Vec<(usize, usize)>, regex::Error>)
    ensures
        r matches Ok(v) ==> v@ == regex_matches(pattern@, text@),
        r matches Ok(v) ==> spans_ok(v@, encode_utf8(text@).len() as int),
{
    let re = regex::Regex::new(pattern)?;
    Ok(re.find_iter(text).map(|m| (m.start(), m.end())).collect())
}

/// Compiles `pattern` by [`regex::bytes::Regex::new`], and lists the matches that
/// [`regex::bytes::Regex::find_iter`] gives in `text`. Where these are depends on `pattern` and
/// `text` alone; they lie within `text` and do not overlap. Which patterns are refused is not
/// stated: a valid one is refused if it would take too much memory, which depends on the machine.
#[verifier::external_body]
fn byte_regex_spans(pattern: &str, text: &[u8]) -> (r: Result<Vec<(usize, usize)>, regex::Error>)
    ensures
        r matches Ok(v) ==> v@ == byte_regex_matches(pattern@, text@),
        r matches Ok(v) ==> spans_ok(v@, text@.len() as int),
{
    let re = regex::bytes::Regex::new(pattern)?;
    Ok(re.find_iter(text).map(|m| (m.start(), m.end())).collect())
}

/// How many of the numbers are less than `x`.
pub open spec fn count_below(bs: Seq<usize>, x: int) -> nat
    decreases bs.len(),
{
    if bs.len() == 0 {
        0
    } else {
        count_below(bs.drop_last(), x) + (if bs.last() < x {
            1nat
        } else {
            0nat
        })
    }
}

pub open spec fn ascending(bs: Seq<usize>) -> bool {
    forall|i: int, j: int| #![trigger bs[i], bs[j]] 0 <= i <= j < bs.len() ==> bs[i] <= bs[j]
}

proof fn lemma_count_below(bs: Seq<usize>, x: int, k: int)
    requires
        0 <= k <= bs.len(),
        forall|i: int| 0 <= i < k ==> (#[trigger] bs[i]) < x,
        forall|i: int| k <= i < bs.len() ==> (#[trigger] bs[i]) >= x,
    ensures
        count_below(bs, x) == k,
    decreases bs.len(),
{
    if bs.len() > 0 {
        let front = bs.drop_last();
        assert(bs.last() == bs[bs.len() - 1]);
        lemma_count_below(
            front,
            x,
            if k == bs.len() {
                k - 1
            } else {
                k
            },
        );
    }
}

/// How many of the numbers are less than `x`, or, if `inclusive`, at most `x`.
fn partition_point(bs: &Vec<usize>, x: usize, inclusive: bool) -> (n: usize)
    requires
        ascending(bs@),
    ensures
        n == count_below(bs@, if inclusive {
            x + 1
        } else {
            x as int
        }),
{
    let ghost limit: int = if inclusive {
        x + 1
    } else {
        x as int
    };
    let mut lo: usize = 0;
    let mut hi: usize = bs.len();
    while lo < hi
        invariant
            ascending(bs@),
            limit == (if inclusive {
                x + 1
            } else {
                x as int
            }),
            lo <= hi <= bs@.len(),
            forall|i: int| 0 <= i < lo ==> (#[trigger] bs@[i]) < limit,
            forall|i: int| hi <= i < bs@.len() ==> (#[trigger] bs@[i]) >= limit,
        decreases hi - lo,
    {
        let mid = lo + (hi - lo) / 2;
        if bs[mid] < x || inclusive && bs[mid] == x {
            lo = mid + 1;
        } else {
            hi = mid;
        }
    }
    proof {
        lemma_count_below(bs@, limit, lo as int);
    }
    lo
}

/// The span of clusters that a span of bytes touches, where `bounds` are the byte offsets at
/// which the clusters begin, and that of the end.
pub open spec fn touched(bounds: Seq<usize>, span: (usize, usize)) -> (usize, usize) {
    let upto = count_below(bounds, span.0 + 1);
    (
        if upto == 0 {
            0
        } else {
            (upto - 1) as usize
        },
        count_below(bounds, span.1 as int) as usize,
    )
}

pub open spec fn touched_all(bounds: Seq<usize>, spans: Seq<(usize, usize)>) -> Seq<
    (usize, usize),
> {
    spans.map_values(|s: (usize, usize)| touched(bounds, s))
}

/// The spans of clusters that the spans of bytes touch.
pub fn grapheme_spans(bounds: &Vec<usize>, spans: &Vec<(usize, usize)>) -> (out: Vec<
    (usize, usize),
>)
    requires
        ascending(bounds@),
    ensures
        out@ == touched_all(bounds@, spans@),
{
    let mut out: Vec<(usize, usize)> = Vec::new();
    for i in 0..spans.len()
        invariant
            ascending(bounds@),
            out@ == touched_all(bounds@, spans@.take(i as int)),
    {
        let (start, end) = spans[i];
        let start_g = partition_point(bounds, start, true).saturating_sub(1);
        let end_g = partition_point(bounds, end, false);
        out.push((start_g, end_g));
        assert(out@ =~= touched_all(bounds@, spans@.take(i + 1)));
    }
    assert(spans@.take(spans@.len() as int) =~= spans@);
    out
}

/// `r` passes on what a search gave: the spans, or why the regular expression was refused.
pub open spec fn passed_on(
    found: Result<Vec<(usize, usize)>, regex::Error>,
    r: Result<Vec<(usize, usize)>, RegexError>,
) -> bool {
    match found {
        Ok(v) => r == Ok::<Vec<(usize, usize)>, RegexError>(v),
        Err(e) => r == Err::<Vec<(usize, usize)>, RegexError>(RegexError { source: e }),
    }
}

/// `r` passes on what a search gave: the clusters that the spans touch, or why the regular
/// expression was refused.
pub open spec fn widened(
    found: Result<Vec<(usize, usize)>, regex::Error>,
    bounds: Seq<usize>,
    r: Result<Vec<(usize, usize)>, RegexError>,
) -> bool {
    match found {
        Ok(v) => r matches Ok(w) && w@ == touched_all(bounds, v@),
        Err(e) => r == Err::<Vec<(usize, usize)>, RegexError>(RegexError { source: e }),
    }
}

/// What is returned for what a search for a regular expression gave.
pub fn regex_result(found: Result<Vec<(usize, usize)>, regex::Error>) -> (r: Result<
    Vec<(usize, usize)>,
    RegexError,
>)
    ensures
        passed_on(found, r),
{
    match found {
        Ok(v) => Ok(v),
        Err(e) => Err(RegexError { source: e }),
    }
}

/// `found` is what [`regex_spans`] came back with for `pattern` and `text`.
pub closed spec fn search_gave(
    pattern: &str,
    text: &str,
    found: Result<Vec<(usize, usize)>, regex::Error>,
) -> bool {
    call_ensures(regex_spans, (pattern, text), found)
}

/// `found` is what [`byte_regex_spans`] came back with for `pattern` and `text`.
pub closed spec fn byte_search_gave(
    pattern: &str,
    text: &[u8],
    found: Result<Vec<(usize, usize)>, regex::Error>,
) -> bool {
    call_ensures(byte_regex_spans, (pattern, text), found)
}

/// What is returned for what a search for a regular expression gave, counted in the clusters that
/// begin and end at `bounds`.
pub fn regex_grapheme_result(
    found: Result<Vec<(usize, usize)>, regex::Error>,
    bounds: &Vec<usize>,
) -> (r: Result<Vec<(usize, usize)>, RegexError>)
    requires
        ascending(bounds@),
    ensures
        widened(found, bounds@, r),
{
    match regex_result(found) {
        Ok(spans) => Ok(grapheme_spans(bounds, &spans)),
        Err(e) => Err(e),
    }
}

/// The byte offsets at which the clusters of `text` begin, and that of its end.
pub open spec fn cluster_bounds(text: Seq<char>) -> Seq<usize> {
    Seq::new(
        grapheme_clusters(text).len(),
        |i: int| cluster_start(text, i) as usize,
    ).push(encode_utf8(text).len() as usize)
}

/// A match of some characters touches some clusters, and only such as there are.
pub proof fn lemma_touched(bounds: Seq<usize>, span: (usize, usize))
    requires
        ascending(bounds),
        0 < bounds.len() <= usize::MAX,
        bounds[0] <= span.0 <= span.1 <= bounds.last(),
    ensures
        span.0 < span.1 ==> touched(bounds, span).0 < touched(bounds, span).1,
        touched(bounds, span).1 < bounds.len(),
{
    lemma_counts(bounds, span.0 + 1, span.1 as int);
    lemma_count_some(bounds, span.0 + 1, 0);
    lemma_count_miss(bounds, span.1 as int, bounds.len() - 1);
}

proof fn lemma_counts(bs: Seq<usize>, x: int, y: int)
    ensures
        x <= y ==> count_below(bs, x) <= count_below(bs, y),
        count_below(bs, x) <= bs.len(),
        count_below(bs, y) <= bs.len(),
    decreases bs.len(),
{
    if bs.len() > 0 {
        lemma_counts(bs.drop_last(), x, y);
    }
}

proof fn lemma_count_some(bs: Seq<usize>, x: int, i: int)
    requires
        0 <= i < bs.len(),
        bs[i] < x,
    ensures
        count_below(bs, x) > 0,
    decreases bs.len(),
{
    if i < bs.len() - 1 {
        lemma_count_some(bs.drop_last(), x, i);
    }
}

proof fn lemma_count_miss(bs: Seq<usize>, x: int, i: int)
    requires
        0 <= i < bs.len(),
        bs[i] >= x,
    ensures
        count_below(bs, x) < bs.len(),
    decreases bs.len(),
{
    lemma_counts(bs.drop_last(), x, x);
    if i < bs.len() - 1 {
        lemma_count_miss(bs.drop_last(), x, i);
    }
}

proof fn lemma_utf8_add(a: Seq<char>, b: Seq<char>)
    ensures
        encode_utf8(a + b) == encode_utf8(a) + encode_utf8(b),
    decreases a.len(),
{
    if a.len() == 0 {
        assert(a + b =~= b);
        assert(encode_utf8(a) + encode_utf8(b) =~= encode_utf8(b));
    } else {
        lemma_utf8_add(a.drop_first(), b);
        assert((a + b).drop_first() =~= a.drop_first() + b);
        assert((a + b)[0] == a[0]);
        assert(encode_utf8(a + b) =~= encode_utf8(a) + encode_utf8(b));
    }
}

pub(crate) proof fn lemma_starts_ascend(text: Seq<char>, i: int, j: int)
    requires
        0 <= i <= j <= grapheme_clusters(text).len(),
    ensures
        cluster_start(text, i) <= cluster_start(text, j),
    decreases j - i,
{
    if i < j {
        let parts = grapheme_clusters(text);
        lemma_starts_ascend(text, i, j - 1);
        assert(parts.take(j).drop_last() =~= parts.take(j - 1));
        lemma_utf8_add(joined_parts(parts.take(j - 1)), parts[j - 1]);
    }
}

impl PieceTable<char> {
    /// The byte offsets at which the matches of the regular expression `pattern` begin and end in
    /// the text of the document.
    pub fn find_regex(&self, pattern: &str) -> (r: Result<Vec<(usize, usize)>, RegexError>)
        requires
            self.wf(),
        ensures
            exists|text: &str, found: Result<Vec<(usize, usize)>, regex::Error>|
                text@ == self@ && #[trigger] search_gave(pattern, text, found) && passed_on(
                    found,
                    r,
                ),
            r matches Ok(v) ==> v@ == regex_matches(pattern@, self@),
            r matches Ok(v) ==> spans_ok(v@, encode_utf8(self@).len() as int),
    {
        let text = self.collect_text();
        let shown = text.as_str();
        let found = regex_spans(pattern, shown);
        assert(search_gave(pattern, shown, found));
        regex_result(found)
    }

    /// The grapheme clusters that the matches of the regular expression `pattern` touch: for each
    /// match the place of the first, and that after the last.
    pub fn find_regex_grapheme(&self, pattern: &str) -> (r: Result<Vec<(usize, usize)>, RegexError>)
        requires
            self.wf(),
        ensures
            exists|text: &str, found: Result<Vec<(usize, usize)>, regex::Error>|
                text@ == self@ && #[trigger] search_gave(pattern, text, found) && widened(
                    found,
                    cluster_bounds(self@),
                    r,
                ),
            r matches Ok(v) ==> v@ == touched_all(
                cluster_bounds(self@),
                regex_matches(pattern@, self@),
            ),
            r matches Ok(v) ==> forall|i: int|
                0 <= i < v@.len() ==> {
                    &&& (#[trigger] v@[i]).1 <= grapheme_clusters(self@).len()
                    &&& regex_matches(pattern@, self@)[i].0 < regex_matches(pattern@, self@)[i].1
                        ==> v@[i].0 < v@[i].1
                },
            r is Ok ==> {
                &&& spans_ok(regex_matches(pattern@, self@), encode_utf8(self@).len() as int)
                &&& encode_utf8(self@).len() <= usize::MAX
                &&& forall|i: int|
                    0 <= i < grapheme_clusters(self@).len() ==> (#[trigger] cluster_bounds(
                        self@,
                    )[i]) == cluster_start(self@, i)
            },
    {
        let text = self.collect_text();
        let shown = text.as_str();
        let found = regex_spans(pattern, shown);
        assert(search_gave(pattern, shown, found));
        let mut bounds = grapheme_starts(shown);
        let ghost starts = bounds@;
        bounds.push(shown.as_bytes().len());
        proof {
            assert(bounds@ =~= cluster_bounds(self@));
            assert forall|i: int, j: int|
                #![trigger bounds@[i], bounds@[j]]
                0 <= i <= j < bounds@.len() implies bounds@[i] <= bounds@[j] by {
                if i < starts.len() {
                    assert(bounds@[i] == starts[i]);
                }
                if j < starts.len() {
                    assert(bounds@[j] == starts[j]);
                    lemma_starts_ascend(self@, i, j);
                }
            }
        }
        let ghost gave = found;
        let r = regex_grapheme_result(found, &bounds);
        let ghost given = r;
        proof {
            if let (Ok(spans), Ok(out)) = (gave, given) {
                assert forall|i: int| 0 <= i < out@.len() implies {
                    &&& (#[trigger] out@[i]).1 <= starts.len()
                    &&& spans@[i].0 < spans@[i].1 ==> out@[i].0 < out@[i].1
                } by {
                    assert(bounds.len() <= usize::MAX);
                    if starts.len() > 0 {
                        assert(bounds@[0] == starts[0]);
                        assert(grapheme_clusters(self@).take(0) =~= Seq::empty());
                    }
                    assert(spans@[i].0 <= spans@[i].1);
                    lemma_touched(bounds@, spans@[i]);
                }
            }
        }
        r
    }
}

impl PieceTable<u8> {
    /// The offsets at which the matches of the regular expression `pattern` begin and end.
    pub fn find_regex_bytes(&self, pattern: &str) -> (r: Result<Vec<(usize, usize)>, RegexError>)
        requires
            self.wf(),
        ensures
            exists|text: &[u8], found: Result<Vec<(usize, usize)>, regex::Error>|
                text@ == self@ && #[trigger] byte_search_gave(pattern, text, found) && passed_on(
                    found,
                    r,
                ),
            r matches Ok(v) ==> v@ == byte_regex_matches(pattern@, self@),
            r matches Ok(v) ==> spans_ok(v@, self@.len() as int),
    {
        let bytes = self.collect_bytes();
        let text = bytes.as_slice();
        let found = byte_regex_spans(pattern, text);
        assert(byte_search_gave(pattern, text, found));
        regex_result(found)
    }
}

/// Where `x` stands among ascending numbers.
pub(crate) proof fn lemma_count_parts(bs: Seq<usize>, x: int)
    requires
        ascending(bs),
    ensures
        count_below(bs, x) <= bs.len(),
        forall|k: int| 0 <= k < count_below(bs, x) ==> (#[trigger] bs[k]) < x,
        forall|k: int| count_below(bs, x) <= k < bs.len() ==> (#[trigger] bs[k]) >= x,
    decreases bs.len(),
{
    if bs.len() > 0 {
        let front = bs.drop_last();
        assert forall|i: int, j: int|
            #![trigger front[i], front[j]]
            0 <= i <= j < front.len() implies front[i] <= front[j] by {
            assert(bs[i] <= bs[j]);
        }
        lemma_count_parts(front, x);
        let n = count_below(front, x) as int;
        assert(bs.last() == bs[bs.len() - 1]);
        assert forall|k: int| 0 <= k < count_below(bs, x) implies (#[trigger] bs[k]) < x by {
            if k < front.len() {
                assert(front[k] == bs[k]);
                assert(bs[k] <= bs[bs.len() - 1]);
            }
        }
        assert forall|k: int| count_below(bs, x) <= k < bs.len() implies (#[trigger] bs[k])
            >= x by {
            if k < front.len() {
                assert(front[k] == bs[k]);
            } else if n < front.len() {
                assert(front[n] == bs[n]);
                assert(bs[n] <= bs[k]);
            }
        }
    }
}

/// What [`search_gave`] says is what [`regex_spans`] came back with.
proof fn lemma_search_gave(
    pattern: &str,
    text: &str,
    found: Result<Vec<(usize, usize)>, regex::Error>,
)
    ensures
        search_gave(pattern, text, found) <==> call_ensures(regex_spans, (pattern, text), found),
{
}

/// What [`byte_search_gave`] says is what [`byte_regex_spans`] came back with.
proof fn lemma_byte_search_gave(
    pattern: &str,
    text: &[u8],
    found: Result<Vec<(usize, usize)>, regex::Error>,
)
    ensures
        byte_search_gave(pattern, text, found) <==> call_ensures(
            byte_regex_spans,
            (pattern, text),
            found,
        ),
{
}

/// What comes back of a search for a regular expression in a document of characters is what the
/// search in its text gave, or why that was refused: there are matches exactly if it was not.
pub proof fn law_find_regex_gives_what_was_found(
    table: &PieceTable<char>,
    pattern: &str,
    r: Result<Vec<(usize, usize)>, RegexError>,
)
    requires
        call_ensures(PieceTable::<char>::find_regex, (table, pattern), r),
    ensures
        exists|text: &str, found: Result<Vec<(usize, usize)>, regex::Error>| #[trigger]
            search_gave(pattern, text, found) && {
                &&& text@ == table@
                &&& r is Ok <==> found is Ok
                &&& r matches Ok(v) ==> found matches Ok(w) && v@ == w@
                &&& r matches Err(e) ==> found matches Err(f) && e.source == f
            },
        r matches Ok(v) ==> v@ == regex_matches(pattern@, table@),
{
    let (text, found) = choose|text: &str, found: Result<Vec<(usize, usize)>, regex::Error>|
        text@ == table@ && #[trigger] search_gave(pattern, text, found) && passed_on(found, r);
    lemma_search_gave(pattern, text, found);
    assert(call_ensures(regex_spans, (pattern, text), found));
}

/// As [`law_find_regex_gives_what_was_found`], for a document of bytes.
pub proof fn law_find_regex_bytes_gives_what_was_found(
    table: &PieceTable<u8>,
    pattern: &str,
    r: Result<Vec<(usize, usize)>, RegexError>,
)
    requires
        call_ensures(PieceTable::<u8>::find_regex_bytes, (table, pattern), r),
    ensures
        exists|text: &[u8], found: Result<Vec<(usize, usize)>, regex::Error>| #[trigger]
            byte_search_gave(pattern, text, found) && {
                &&& text@ == table@
                &&& r is Ok <==> found is Ok
                &&& r matches Ok(v) ==> found matches Ok(w) && v@ == w@
                &&& r matches Err(e) ==> found matches Err(f) && e.source == f
            },
        r matches Ok(v) ==> v@ == byte_regex_matches(pattern@, table@),
{
    let (text, found) = choose|text: &[u8], found: Result<Vec<(usize, usize)>, regex::Error>|
        text@ == table@ && #[trigger] byte_search_gave(pattern, text, found) && passed_on(found, r);
    lemma_byte_search_gave(pattern, text, found);
    assert(call_ensures(byte_regex_spans, (pattern, text), found));
}

/// A search for a regular expression by clusters is refused exactly if the search in the text is,
/// and for the same reason; else it gives one range for each match.
pub proof fn law_find_regex_grapheme_gives_what_was_found(
    table: &PieceTable<char>,
    pattern: &str,
    r: Result<Vec<(usize, usize)>, RegexError>,
)
    requires
        call_ensures(PieceTable::<char>::find_regex_grapheme, (table, pattern), r),
    ensures
        exists|text: &str, found: Result<Vec<(usize, usize)>, regex::Error>| #[trigger]
            search_gave(pattern, text, found) && {
                &&& text@ == table@
                &&& r is Ok <==> found is Ok
                &&& r matches Ok(v) ==> found matches Ok(w) && v@.len() == w@.len()
                &&& r matches Err(e) ==> found matches Err(f) && e.source == f
            },
        r matches Ok(v) ==> v@.len() == regex_matches(pattern@, table@).len(),
{
    let (text, found) = choose|text: &str, found: Result<Vec<(usize, usize)>, regex::Error>|
        text@ == table@ && #[trigger] search_gave(pattern, text, found) && widened(
            found,
            cluster_bounds(table@),
            r,
        );
    lemma_search_gave(pattern, text, found);
    assert(call_ensures(regex_spans, (pattern, text), found));
}

} // verus!
