//! What is said of faults.
use vstd::prelude::*;

use crate::defect::{decimal, digit, Defect};

verus! {

/// The value of a decimal digit.
pub open spec fn digit_value(c: char) -> int {
    c as int - '0' as int
}

/// The number that decimal digits stand for.
pub open spec fn number(s: Seq<char>) -> int
    decreases s.len(),
{
    if s.len() == 0 {
        0
    } else {
        number(s.drop_last()) * 10 + digit_value(s.last())
    }
}

/// `s` is `n` in decimal digits, with no zero in front.
pub open spec fn writes(s: Seq<char>, n: int) -> bool {
    &&& s.len() > 0
    &&& forall|i: int| 0 <= i < s.len() ==> '0' <= (#[trigger] s[i]) <= '9'
    &&& s.len() > 1 ==> s[0] != '0'
    &&& number(s) == n
}

proof fn lemma_writes(n: nat)
    ensures
        writes(decimal(n), n as int),
        n > 0 ==> decimal(n)[0] != '0',
    decreases n,
{
    let s = decimal(n);
    if n < 10 {
        assert(s.drop_last() =~= Seq::empty());
        assert(number(s.drop_last()) == 0);
        assert(s.last() == digit(n));
        assert(digit_value(digit(n)) == n);
    } else {
        let front = decimal(n / 10);
        lemma_writes(n / 10);
        assert(s.drop_last() =~= front);
        assert(s.last() == digit(n % 10));
        assert(s[0] == front[0]);
        assert(digit_value(digit(n % 10)) == n % 10);
        assert(number(s) == number(front) * 10 + (n % 10));
        assert forall|i: int| 0 <= i < s.len() implies '0' <= (#[trigger] s[i]) <= '9' by {
            if i < front.len() {
                assert(s[i] == front[i]);
            }
        }
    }
}

/// `s` is `first`, the number `a`, `second` and the number `b`.
pub open spec fn compares(
    s: Seq<char>,
    first: Seq<char>,
    a: int,
    second: Seq<char>,
    b: int,
) -> bool {
    exists|x: Seq<char>, y: Seq<char>| #[trigger]
        writes(x, a) && #[trigger] writes(y, b) && s == first + x + second + y
}

/// What is said of a fault names it, and gives the numbers that do not agree, in decimal digits:
/// first the one that was found, then the one that is recorded.
pub proof fn law_message_names_the_fault(d: Defect, s: String)
    requires
        call_ensures(Defect::message, (&d,), s),
    ensures
        match d {
            Defect::LengthWithoutTree => s@ == "non-zero total_len with empty tree"@,
            Defect::LeafLength { computed, stored } => compares(
                s@,
                "leaf subtree_len mismatch: computed="@,
                computed as int,
                ", stored="@,
                stored as int,
            ),
            Defect::NoChildren => s@ == "internal node has no children"@,
            Defect::InternalLength { computed, stored } => compares(
                s@,
                "internal subtree_len mismatch: computed="@,
                computed as int,
                ", stored="@,
                stored as int,
            ),
            Defect::RootLength { computed, total } => compares(
                s@,
                "root length mismatch: computed="@,
                computed as int,
                ", total="@,
                total as int,
            ),
            Defect::EmptyPiece => s@ == "zero-length piece found"@,
            Defect::FileBounds => s@ == "file piece out of bounds"@,
            Defect::AddBounds => s@ == "add piece out of bounds"@,
            Defect::Coalescible => s@ == "adjacent coalescible pieces found"@,
            Defect::PieceSum { sum, total } => compares(
                s@,
                "piece sum mismatch: piece_sum="@,
                sum as int,
                ", total_len="@,
                total as int,
            ),
            Defect::IndexLength { index, total } => compares(
                s@,
                "index length mismatch: index="@,
                index as int,
                ", total="@,
                total as int,
            ),
            Defect::MissingRoot => s@ == "missing index root on non-empty table"@,
        },
{
    match d {
        Defect::LeafLength { computed: a, stored: b } => {
            lemma_writes(a as nat);
            lemma_writes(b as nat);
        },
        Defect::InternalLength { computed: a, stored: b } => {
            lemma_writes(a as nat);
            lemma_writes(b as nat);
        },
        Defect::RootLength { computed: a, total: b } => {
            lemma_writes(a as nat);
            lemma_writes(b as nat);
        },
        Defect::PieceSum { sum: a, total: b } => {
            lemma_writes(a as nat);
            lemma_writes(b as nat);
        },
        Defect::IndexLength { index: a, total: b } => {
            lemma_writes(a as nat);
            lemma_writes(b as nat);
        },
        _ => {},
    }
}

} // verus!
