//! Edit counters.
use vstd::prelude::*;

verus! {

/// Runtime counters useful for profiling edit behavior.
///
/// The counters wrap around at `usize::MAX`.
#[derive(Clone, Copy, Debug, PartialEq, Eq, Structural)]
pub struct Stats {
    pub split_calls: usize,
    pub merge_calls: usize,
    pub inserts: usize,
    pub deletes: usize,
    pub coalesces: usize,
}

/// `n` as a counter shows it, after wrapping around.
pub open spec fn wrapped(n: int) -> int {
    n % (usize::MAX as int + 1)
}

/// A counter that read `before` reads `after` once `n` events were counted.
pub open spec fn counted(before: usize, n: int, after: usize) -> bool {
    after as int == (if 0 <= before + n <= usize::MAX {
        before + n
    } else {
        wrapped(before + n)
    })
}

pub(crate) proof fn lemma_counted_wraps(a: usize, n: int, b: usize)
    ensures
        counted(a, n, b) <==> b as int == wrapped(a + n),
{
    if 0 <= a + n <= usize::MAX {
        vstd::arithmetic::div_mod::lemma_small_mod((a + n) as nat, (usize::MAX as int + 1) as nat);
    }
}

/// `after` is `before` with `splits` more calls counted as splits, `merges` more as merges and
/// `joins` more as coalesces; the edit counters are as they were.
#[verifier::opaque]
pub open spec fn tallied(
    before: Stats,
    after: Stats,
    splits: int,
    merges: int,
    joins: int,
) -> bool {
    &&& counted(before.split_calls, splits, after.split_calls)
    &&& counted(before.merge_calls, merges, after.merge_calls)
    &&& counted(before.coalesces, joins, after.coalesces)
    &&& after.inserts == before.inserts
    &&& after.deletes == before.deletes
}

pub(crate) proof fn lemma_counted_trans(a: usize, n: int, b: usize, m: int, c: usize)
    requires
        counted(a, n, b),
        counted(b, m, c),
    ensures
        counted(a, n + m, c),
{
    let w = usize::MAX as int + 1;
    lemma_counted_wraps(a, n, b);
    lemma_counted_wraps(b, m, c);
    lemma_counted_wraps(a, n + m, c);
    vstd::arithmetic::div_mod::lemma_add_mod_noop(a + n, m, w);
    vstd::arithmetic::div_mod::lemma_mod_twice(a + n, w);
    vstd::arithmetic::div_mod::lemma_add_mod_noop((a + n) % w, m, w);
}

pub(crate) proof fn lemma_counted_few(a: usize)
    ensures
        counted(a, 0, a),
        a < usize::MAX ==> counted(a, 1, (a + 1) as usize),
        a == usize::MAX ==> counted(a, 1, 0),
{
    if a == usize::MAX {
        vstd::arithmetic::div_mod::lemma_mod_self_0(usize::MAX as int + 1);
    }
}

impl Stats {
    /// Counters that have counted nothing.
    pub open spec fn zero() -> Stats {
        Stats { split_calls: 0, merge_calls: 0, inserts: 0, deletes: 0, coalesces: 0 }
    }

    pub(crate) fn note_split(&mut self)
        ensures
            tallied(*old(self), *final(self), 1, 0, 0),
    {
        proof {
            reveal(tallied);
            lemma_counted_few(self.split_calls);
            lemma_counted_few(self.merge_calls);
            lemma_counted_few(self.coalesces);
        }
        self.split_calls = self.split_calls.wrapping_add(1);
    }

    pub(crate) fn note_merge(&mut self)
        ensures
            tallied(*old(self), *final(self), 0, 1, 0),
    {
        proof {
            reveal(tallied);
            lemma_counted_few(self.split_calls);
            lemma_counted_few(self.merge_calls);
            lemma_counted_few(self.coalesces);
        }
        self.merge_calls = self.merge_calls.wrapping_add(1);
    }

    pub(crate) fn note_join(&mut self)
        ensures
            tallied(*old(self), *final(self), 0, 1, 1),
    {
        proof {
            reveal(tallied);
            lemma_counted_few(self.split_calls);
            lemma_counted_few(self.merge_calls);
            lemma_counted_few(self.coalesces);
        }
        self.coalesces = self.coalesces.wrapping_add(1);
        self.merge_calls = self.merge_calls.wrapping_add(1);
    }
}

impl Stats {
    pub(crate) fn note_insert(&mut self)
        ensures
            counted(old(self).inserts, 1, final(self).inserts),
            *final(self) == (Stats { inserts: final(self).inserts, ..*old(self) }),
    {
        proof {
            lemma_counted_few(self.inserts);
        }
        self.inserts = self.inserts.wrapping_add(1);
    }

    pub(crate) fn note_delete(&mut self)
        ensures
            counted(old(self).deletes, 1, final(self).deletes),
            *final(self) == (Stats { deletes: final(self).deletes, ..*old(self) }),
    {
        proof {
            lemma_counted_few(self.deletes);
        }
        self.deletes = self.deletes.wrapping_add(1);
    }
}

/// One insertion was counted, and `splits` splits; nothing else was.
pub open spec fn insert_counted(before: Stats, after: Stats, splits: int) -> bool {
    &&& counted(before.inserts, 1, after.inserts)
    &&& counted(before.split_calls, splits, after.split_calls)
    &&& after.merge_calls == before.merge_calls
    &&& after.coalesces == before.coalesces
    &&& after.deletes == before.deletes
}

/// One deletion was counted, with `splits` splits, `merges` merges and `joins` coalesces.
pub open spec fn delete_counted(
    before: Stats,
    after: Stats,
    splits: int,
    merges: int,
    joins: int,
) -> bool {
    &&& counted(before.deletes, 1, after.deletes)
    &&& counted(before.split_calls, splits, after.split_calls)
    &&& counted(before.merge_calls, merges, after.merge_calls)
    &&& counted(before.coalesces, joins, after.coalesces)
    &&& after.inserts == before.inserts
}

/// A counter that counted nothing reads as before.
pub(crate) proof fn lemma_counted_none(a: usize, b: usize)
    requires
        counted(a, 0, b),
    ensures
        a == b,
{
    lemma_counted_few(a);
}

impl Default for Stats {
    fn default() -> (stats: Stats)
        ensures
            stats == Stats::zero(),
    {
        Stats { split_calls: 0, merge_calls: 0, inserts: 0, deletes: 0, coalesces: 0 }
    }
}

pub(crate) proof fn lemma_tallied_none(s: Stats)
    ensures
        tallied(s, s, 0, 0, 0),
{
    reveal(tallied);
    lemma_counted_few(s.split_calls);
    lemma_counted_few(s.merge_calls);
    lemma_counted_few(s.coalesces);
}

pub(crate) proof fn lemma_tallied_trans(
    a: Stats,
    b: Stats,
    c: Stats,
    s1: int,
    m1: int,
    j1: int,
    s2: int,
    m2: int,
    j2: int,
)
    requires
        tallied(a, b, s1, m1, j1),
        tallied(b, c, s2, m2, j2),
    ensures
        tallied(a, c, s1 + s2, m1 + m2, j1 + j2),
{
    reveal(tallied);
    lemma_counted_trans(a.split_calls, s1, b.split_calls, s2, c.split_calls);
    lemma_counted_trans(a.merge_calls, m1, b.merge_calls, m2, c.merge_calls);
    lemma_counted_trans(a.coalesces, j1, b.coalesces, j2, c.coalesces);
}

} // verus!
