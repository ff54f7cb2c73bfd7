//! What a check of the records of a table finds.
use vstd::prelude::*;

use crate::compact::CompactPieceTable;
use crate::defect::{
    bounds_fault, fault_all, flat_all, lemma_flat_all_at, lemma_flat_marks, lemma_flat_prefix,
    lemma_first_faulty_node, lemma_ordered_child, pieces_fault, Defect,
};
use crate::laws::shape::{descend, lemma_pieces_below, pieces_below};
use crate::piece::{all_ordered, loose, marks_of, tidy, BufferKind, Piece};
use crate::table::PieceTable;
use crate::tree::{marks_all, BNode};

verus! {

/// How many elements the pieces stand for together.
pub open spec fn sum_len(ps: Seq<Piece>) -> int
    decreases ps.len(),
{
    if ps.len() == 0 {
        0
    } else {
        sum_len(ps.drop_last()) + (ps.last().end - ps.last().start)
    }
}

/// The number of elements that a node records is that of the pieces below it, and it has a child
/// unless it is a leaf.
pub open spec fn records_right(n: BNode) -> bool {
    match n {
        BNode::Leaf { pieces, subtree_len } => subtree_len == sum_len(pieces@),
        BNode::Internal { children, subtree_len } => children@.len() > 0 && subtree_len == sum_len(
            pieces_below(n),
        ),
    }
}

/// Every node that can be come to from `n` records the right number of elements.
pub open spec fn all_records_right(n: BNode) -> bool {
    forall|path: Seq<int>|
        (#[trigger] descend(n, path)) is Some ==> records_right(descend(n, path)->0)
}

/// The check failed, and says that `d` is the fault.
pub open spec fn says(r: Result<(), String>, d: Defect) -> bool {
    r matches Err(s) && s@ == d.words()
}

/// The piece stands for at least one element, and for none that its buffer does not have.
pub open spec fn piece_right(p: Piece, file_len: int, add_len: int) -> bool {
    &&& p.start < p.end
    &&& p.buffer == BufferKind::File ==> p.end <= file_len
    &&& p.buffer == BufferKind::Add ==> p.end <= add_len
}

pub open spec fn pieces_right(ps: Seq<Piece>, file_len: int, add_len: int) -> bool {
    forall|i: int| 0 <= i < ps.len() ==> piece_right(#[trigger] ps[i], file_len, add_len)
}

/// Piece `i` ends where the next one begins, in the same buffer.
pub open spec fn runs_on(ps: Seq<Piece>, i: int) -> bool {
    &&& 0 <= i < ps.len() - 1
    &&& ps[i].buffer == ps[i + 1].buffer
    &&& ps[i].end == ps[i + 1].start
}

/// Piece `i` is wrong, and those before it are right.
pub open spec fn first_wrong(ps: Seq<Piece>, i: int, file_len: int, add_len: int) -> bool {
    &&& 0 <= i < ps.len()
    &&& !piece_right(ps[i], file_len, add_len)
    &&& forall|k: int| 0 <= k < i ==> piece_right(#[trigger] ps[k], file_len, add_len)
}

/// What is to be said of a wrong piece.
pub open spec fn says_of_piece(r: Result<(), String>, p: Piece) -> bool {
    if p.start >= p.end {
        says(r, Defect::EmptyPiece)
    } else {
        match p.buffer {
            BufferKind::File => says(r, Defect::FileBounds),
            BufferKind::Add => says(r, Defect::AddBounds),
        }
    }
}

proof fn lemma_sum_len(ps: Seq<Piece>)
    requires
        all_ordered(ps),
    ensures
        sum_len(ps) == marks_of(ps).len(),
    decreases ps.len(),
{
    if ps.len() > 0 {
        let front = ps.drop_last();
        assert(ps.last() == ps[ps.len() - 1]);
        assert forall|i: int| 0 <= i < front.len() implies (#[trigger] front[i]).start
            <= front[i].end by {
            assert(ps[i].start <= ps[i].end);
        }
        lemma_sum_len(front);
    }
}

proof fn lemma_bounds(ps: Seq<Piece>, file_len: int, add_len: int)
    requires
        all_ordered(ps),
    ensures
        bounds_fault(ps, file_len, add_len) is None <==> pieces_right(ps, file_len, add_len),
        bounds_fault(ps, file_len, add_len) is Some ==> exists|i: int| #[trigger]
            first_wrong(ps, i, file_len, add_len),
        forall|i: int| #[trigger]
            first_wrong(ps, i, file_len, add_len) ==> bounds_fault(ps, file_len, add_len) == Some(
                if ps[i].start >= ps[i].end {
                    Defect::EmptyPiece
                } else {
                    match ps[i].buffer {
                        BufferKind::File => Defect::FileBounds,
                        BufferKind::Add => Defect::AddBounds,
                    }
                },
            ),
    decreases ps.len(),
{
    if ps.len() > 0 {
        let front = ps.drop_last();
        let n = ps.len() - 1;
        assert(ps.last() == ps[n]);
        assert forall|i: int| 0 <= i < front.len() implies (#[trigger] front[i]).start
            <= front[i].end by {
            assert(ps[i].start <= ps[i].end);
        }
        lemma_bounds(front, file_len, add_len);
        assert(forall|i: int| 0 <= i < n ==> #[trigger] front[i] == ps[i]);
        if pieces_right(front, file_len, add_len) {
            assert forall|i: int| 0 <= i < n implies piece_right(
                #[trigger] ps[i],
                file_len,
                add_len,
            ) by {
                assert(piece_right(front[i], file_len, add_len));
            }
            if !piece_right(ps[n], file_len, add_len) {
                assert(first_wrong(ps, n, file_len, add_len));
            }
            assert forall|i: int| #[trigger] first_wrong(ps, i, file_len, add_len) implies i
                == n by {}
        } else {
            let i = choose|i: int| #[trigger] first_wrong(front, i, file_len, add_len);
            assert(first_wrong(front, i, file_len, add_len));
            assert forall|k: int| 0 <= k < i implies piece_right(
                #[trigger] ps[k],
                file_len,
                add_len,
            ) by {
                assert(piece_right(front[k], file_len, add_len));
            }
            assert(first_wrong(ps, i, file_len, add_len));
            assert(!piece_right(ps[i], file_len, add_len));
            assert forall|j: int| #[trigger] first_wrong(ps, j, file_len, add_len) implies j
                == i by {
                if j > i {
                    assert(piece_right(ps[i], file_len, add_len));
                } else if j < i {
                    assert(piece_right(ps[j], file_len, add_len));
                }
            }
        }
    }
}

proof fn lemma_tidy(ps: Seq<Piece>)
    ensures
        tidy(ps) <==> forall|i: int| !#[trigger] runs_on(ps, i),
{
    assert(forall|i: int| 0 <= i < ps.len() - 1 ==> (#[trigger] loose(ps, i) <==> runs_on(ps, i)));
    if tidy(ps) {
        assert forall|i: int| !#[trigger] runs_on(ps, i) by {
            if 0 <= i < ps.len() - 1 {
                assert(!loose(ps, i));
            }
        }
    } else {
        let i = choose|i: int| 0 <= i < ps.len() - 1 && #[trigger] loose(ps, i);
        assert(runs_on(ps, i));
    }
}

/// What the check of a list of pieces finds.
proof fn lemma_pieces_checked(ps: Seq<Piece>, file_len: int, add_len: int)
    requires
        all_ordered(ps),
    ensures
        pieces_fault(ps, file_len, add_len) is None <==> pieces_right(ps, file_len, add_len)
            && forall|i: int| !#[trigger] runs_on(ps, i),
        pieces_right(ps, file_len, add_len) && !(forall|i: int| !#[trigger] runs_on(ps, i))
            ==> pieces_fault(ps, file_len, add_len) == Some(Defect::Coalescible),
        forall|i: int| #[trigger]
            first_wrong(ps, i, file_len, add_len) ==> pieces_fault(ps, file_len, add_len) == Some(
                if ps[i].start >= ps[i].end {
                    Defect::EmptyPiece
                } else {
                    match ps[i].buffer {
                        BufferKind::File => Defect::FileBounds,
                        BufferKind::Add => Defect::AddBounds,
                    }
                },
            ),
{
    lemma_bounds(ps, file_len, add_len);
    lemma_tidy(ps);
}

/// A compact table passes the check exactly if its pieces have the recorded length, each stands for
/// elements that its buffer has, no two neighbours could be one, and the index has that length
/// too. Else the check says what is wrong: the length counts before the pieces, the first wrong
/// piece before neighbours that could be one, and these before the index.
pub proof fn law_compact_check_finds_faults<T: Clone + PartialEq>(
    table: CompactPieceTable<T>,
    r: Result<(), String>,
)
    requires
        table.wf() || table.countable(),
        call_ensures(CompactPieceTable::<T>::validate, (&table,), r),
    ensures
        ({
            let ps = table.listed();
            let file_len = table.original_len() as int;
            let add_len = table.added() as int;
            let total = table.recorded_len();
            let apart = forall|i: int| !#[trigger] runs_on(ps, i);
            let right = pieces_right(ps, file_len, add_len);
            &&& r is Ok <==> {
                &&& sum_len(ps) == total
                &&& right
                &&& apart
                &&& match table.indexed_len() {
                    Some(n) => n == total,
                    None => total == 0,
                }
            }
            &&& sum_len(ps) != total ==> says(
                r,
                Defect::PieceSum { sum: sum_len(ps) as usize, total },
            )
            &&& sum_len(ps) <= usize::MAX
            &&& forall|i: int| #[trigger]
                first_wrong(ps, i, file_len, add_len) && sum_len(ps) == total ==> says_of_piece(
                    r,
                    ps[i],
                )
            &&& sum_len(ps) == total && right && !apart ==> says(r, Defect::Coalescible)
            &&& sum_len(ps) == total && right && apart ==> match table.indexed_len() {
                Some(n) => n != total ==> says(r, Defect::IndexLength { index: n, total }),
                None => total != 0 ==> says(r, Defect::MissingRoot),
            }
        }),
{
    if table.wf() {
        table.lemma_valid();
    }
    let ps = table.listed();
    lemma_sum_len(ps);
    lemma_pieces_checked(ps, table.original_len() as int, table.added() as int);
}

/// The node at `q` is checked before the one at `p`: it is below that one, or further left.
pub open spec fn comes_before(q: Seq<int>, p: Seq<int>) -> bool {
    exists|j: int| #[trigger] parts_at(q, p, j)
}

/// The ways `q` and `p` are the same for `j` steps; then `p` ends, or `q` goes further left.
pub open spec fn parts_at(q: Seq<int>, p: Seq<int>, j: int) -> bool {
    &&& 0 <= j < q.len()
    &&& j <= p.len()
    &&& forall|i: int| 0 <= i < j ==> #[trigger] q[i] == p[i]
    &&& j < p.len() ==> q[j] < p[j]
}

/// The node at `path` records what is not right, and those that are checked before it do not.
pub open spec fn first_wrong_node(n: BNode, path: Seq<int>) -> bool {
    &&& descend(n, path) is Some
    &&& !records_right(descend(n, path)->0)
    &&& forall|q: Seq<int>|
        (#[trigger] descend(n, q)) is Some && comes_before(q, path) ==> records_right(
            descend(n, q)->0,
        )
}

/// What is to be said of a node that records what is not right.
pub open spec fn node_defect(n: BNode) -> Defect {
    match n {
        BNode::Leaf { pieces, subtree_len } => Defect::LeafLength {
            computed: sum_len(pieces@) as usize,
            stored: subtree_len,
        },
        BNode::Internal { children, subtree_len } => if children@.len() == 0 {
            Defect::NoChildren
        } else {
            Defect::InternalLength {
                computed: sum_len(pieces_below(n)) as usize,
                stored: subtree_len,
            }
        },
    }
}

/// The lengths of the pieces below a node can be added up.
proof fn lemma_node_sum(n: BNode)
    requires
        all_ordered(n.flat()),
    ensures
        sum_len(pieces_below(n)) == n.marks().len(),
{
    lemma_pieces_below(n);
    lemma_flat_marks(n);
    lemma_sum_len(n.flat());
}

proof fn lemma_child_sum(s: Seq<Box<BNode>>, i: int)
    requires
        0 <= i < s.len(),
        all_ordered(flat_all(s)),
    ensures
        all_ordered(s[i].flat()),
        s[i].marks().len() <= marks_all(s).len(),
{
    lemma_ordered_child(s, i);
    lemma_flat_all_at(s, i);
    lemma_flat_prefix(s, i + 1);
}

proof fn lemma_step(children: Seq<Box<BNode>>, n: BNode, k: int, q: Seq<int>)
    requires
        n matches BNode::Internal { children: c, .. } && c@ == children,
        0 <= k < children.len(),
    ensures
        descend(n, seq![k] + q) == descend(*children[k], q),
{
    assert((seq![k] + q).skip(1) =~= q);
    assert((seq![k] + q)[0] == k);
}

/// All nodes of which nothing is said record what is right.
proof fn lemma_faultless_path(n: BNode, path: Seq<int>)
    requires
        all_ordered(n.flat()),
        n.fault() is None,
        descend(n, path) is Some,
    ensures
        records_right(descend(n, path)->0),
    decreases path.len(),
{
    lemma_node_sum(n);
    if path.len() > 0 {
        match n {
            BNode::Leaf { .. } => {},
            BNode::Internal { children, .. } => {
                lemma_child_sum(children@, path[0]);
                lemma_fault_none_at(children@, path[0]);
                lemma_faultless_path(*children@[path[0]], path.skip(1));
            },
        }
    }
}

proof fn lemma_fault_none_at(s: Seq<Box<BNode>>, i: int)
    requires
        0 <= i < s.len(),
        fault_all(s) is None,
    ensures
        s[i].fault() is None,
    decreases s.len(),
{
    if i < s.len() - 1 {
        lemma_fault_none_at(s.drop_last(), i);
    }
}

/// Of nodes that all record what is right nothing is said.
proof fn lemma_right_faultless(n: BNode)
    requires
        all_ordered(n.flat()),
        all_records_right(n),
    ensures
        n.fault() is None,
    decreases n, 0int,
{
    lemma_node_sum(n);
    assert(descend(n, Seq::empty()) == Some(n));
    assert(records_right(n));
    match n {
        BNode::Leaf { .. } => {},
        BNode::Internal { children, .. } => {
            assert forall|k: int| 0 <= k < children@.len() implies all_records_right(
                *#[trigger] children@[k],
            ) by {
                assert forall|q: Seq<int>|
                    (#[trigger] descend(*children@[k], q)) is Some implies records_right(
                    descend(*children@[k], q)->0,
                ) by {
                    lemma_step(children@, n, k, q);
                    assert(descend(n, seq![k] + q) is Some);
                }
            }
            lemma_right_faultless_all(children@, children@.len() as int);
            assert(children@.take(children@.len() as int) =~= children@);
        },
    }
}

proof fn lemma_right_faultless_all(s: Seq<Box<BNode>>, i: int)
    requires
        0 <= i <= s.len(),
        all_ordered(flat_all(s)),
        forall|k: int| 0 <= k < i ==> all_records_right(*#[trigger] s[k]),
    ensures
        fault_all(s.take(i)) is None,
    decreases s, i,
{
    if i > 0 {
        lemma_right_faultless_all(s, i - 1);
        lemma_flat_all_at(s, i - 1);
        lemma_child_sum(s, i - 1);
        assert(all_records_right(*s[i - 1]));
        lemma_right_faultless(*s[i - 1]);
    }
}

/// What is said is what is wrong with the first node that records what is not right.
proof fn lemma_first_node(n: BNode, path: Seq<int>)
    requires
        all_ordered(n.flat()),
        first_wrong_node(n, path),
    ensures
        n.fault() == Some(node_defect(descend(n, path)->0)),
        sum_len(pieces_below(descend(n, path)->0)) <= n.marks().len(),
    decreases path.len(),
{
    lemma_node_sum(n);
    match n {
        BNode::Leaf { .. } => {},
        BNode::Internal { children, .. } => {
            let upto: int = if path.len() == 0 {
                children@.len() as int
            } else {
                path[0]
            };
            assert forall|k: int| 0 <= k < upto implies all_records_right(
                *#[trigger] children@[k],
            ) by {
                assert forall|q: Seq<int>|
                    (#[trigger] descend(*children@[k], q)) is Some implies records_right(
                    descend(*children@[k], q)->0,
                ) by {
                    lemma_step(children@, n, k, q);
                    assert(parts_at(seq![k] + q, path, 0));
                    assert(descend(n, seq![k] + q) is Some);
                }
            }
            lemma_right_faultless_all(children@, upto);
            if path.len() == 0 {
                assert(children@.take(upto) =~= children@);
            } else {
                let k = path[0];
                let rest = path.skip(1);
                lemma_child_sum(children@, k);
                assert(path =~= seq![k] + rest);
                lemma_step(children@, n, k, rest);
                assert forall|q: Seq<int>|
                    (#[trigger] descend(*children@[k], q)) is Some && comes_before(
                        q,
                        rest,
                    ) implies records_right(descend(*children@[k], q)->0) by {
                    let j = choose|j: int| #[trigger] parts_at(q, rest, j);
                    let w = seq![k] + q;
                    lemma_step(children@, n, k, q);
                    assert forall|i: int| 0 <= i < j + 1 implies #[trigger] w[i] == path[i] by {
                        if i > 0 {
                            assert(q[i - 1] == rest[i - 1]);
                        }
                    }
                    assert(j + 1 < path.len() ==> w[j + 1] == q[j] && path[j + 1] == rest[j]);
                    assert(parts_at(w, path, j + 1));
                    assert(descend(n, w) is Some);
                }
                lemma_first_node(*children@[k], rest);
                lemma_flat_all_at(children@, k);
                lemma_first_faulty_node(children@, k + 1);
            }
        },
    }
}

/// A table passes the check exactly if every node of its tree records how many elements the pieces
/// below it stand for and has a child unless it is a leaf, the length of the document is that of
/// its pieces, each piece stands for elements that its buffer has, and no two neighbours could be
/// one. Else the check says what is wrong: the first wrong node counts before the length, that
/// before the first wrong piece, and that before neighbours that could be one.
pub proof fn law_check_finds_faults<T: Clone + PartialEq>(
    table: PieceTable<T>,
    r: Result<(), String>,
)
    requires
        table.wf() || table.countable(),
        call_ensures(PieceTable::<T>::validate, (&table,), r),
    ensures
        match table.tree() {
            None => {
                &&& r is Ok <==> table.recorded_len() == 0
                &&& table.recorded_len() != 0 ==> says(r, Defect::LengthWithoutTree)
            },
            Some(root) => {
                let ps = pieces_below(*root);
                let file_len = table.original_len() as int;
                let add_len = table.added() as int;
                let total = table.recorded_len();
                let apart = forall|i: int| !#[trigger] runs_on(ps, i);
                let right = pieces_right(ps, file_len, add_len);
                let sums = all_records_right(*root);
                &&& r is Ok <==> sums && sum_len(ps) == total && right && apart
                &&& sum_len(ps) <= usize::MAX
                &&& forall|path: Seq<int>| #[trigger]
                    first_wrong_node(*root, path) ==> says(
                        r,
                        node_defect(descend(*root, path)->0),
                    ) && sum_len(pieces_below(descend(*root, path)->0)) <= usize::MAX
                &&& sums && sum_len(ps) != total ==> says(
                    r,
                    Defect::RootLength { computed: sum_len(ps) as usize, total },
                )
                &&& forall|i: int| #[trigger]
                    first_wrong(ps, i, file_len, add_len) && sums && sum_len(ps) == total
                        ==> says_of_piece(r, ps[i])
                &&& sums && sum_len(ps) == total && right && !apart ==> says(
                    r,
                    Defect::Coalescible,
                )
            },
        },
{
    if table.wf() {
        table.lemma_valid();
    }
    match table.tree() {
        None => {},
        Some(root) => {
            lemma_pieces_below(*root);
            lemma_node_sum(*root);
            lemma_pieces_checked(
                root.flat(),
                table.original_len() as int,
                table.added() as int,
            );
            if root.fault() is None {
                assert forall|path: Seq<int>|
                    (#[trigger] descend(*root, path)) is Some implies records_right(
                    descend(*root, path)->0,
                ) by {
                    lemma_faultless_path(*root, path);
                }
            } else if all_records_right(*root) {
                lemma_right_faultless(*root);
            }
            assert forall|path: Seq<int>| #[trigger] first_wrong_node(*root, path) implies says(
                r,
                node_defect(descend(*root, path)->0),
            ) && sum_len(pieces_below(descend(*root, path)->0)) <= usize::MAX by {
                lemma_first_node(*root, path);
            }
        },
    }
}

} // verus!
