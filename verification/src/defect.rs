//! What can be wrong with a table, and how it is reported.
use vstd::prelude::*;

use crate::list::{can_coalesce, pieces_len};
use crate::piece::{
    all_ordered, all_sound, lemma_marks_add, lemma_tidy_settled, loose, marks_of, settled, tidy,
    BufferKind, Piece,
};
use crate::content::within;
use crate::tree::{kids_wf, marks_all, BNode};

verus! {

/// A fault in the records of a table.
#[derive(Clone, Copy, Debug, PartialEq, Eq, Structural)]
pub enum Defect {
    /// There are elements, but no tree.
    LengthWithoutTree,
    /// A leaf records another length than its pieces have.
    LeafLength { computed: usize, stored: usize },
    /// An internal node has no child.
    NoChildren,
    /// An internal node records another length than its children have.
    InternalLength { computed: usize, stored: usize },
    /// The pieces in the tree have another length than the document.
    RootLength { computed: usize, total: usize },
    /// A piece stands for no element.
    EmptyPiece,
    /// A piece reaches past the end of the original elements.
    FileBounds,
    /// A piece reaches past the end of the added elements.
    AddBounds,
    /// Two neighbouring pieces could be one.
    Coalescible,
    /// The pieces in the list have another length than the document.
    PieceSum { sum: usize, total: usize },
    /// The index records another length than the document has.
    IndexLength { index: usize, total: usize },
    /// There are elements, but no index.
    MissingRoot,
}

pub open spec fn digit(d: nat) -> char {
    (48 + d) as char
}

/// `n` in decimal digits.
pub open spec fn decimal(n: nat) -> Seq<char>
    decreases n,
{
    if n < 10 {
        seq![digit(n)]
    } else {
        decimal(n / 10).push(digit(n % 10))
    }
}

/// Appends `c` to a `String`, as [`String::push`] does: the characters that were there stay, and
/// `c` follows them.
pub assume_specification[ String::push ](s: &mut String, c: char)
    ensures
        final(s)@ == old(s)@.push(c),
;

/// Appends `n` in decimal digits.
fn push_decimal(s: &mut String, n: usize)
    ensures
        final(s)@ == old(s)@ + decimal(n as nat),
    decreases n,
{
    let ghost before = s@;
    if n >= 10 {
        push_decimal(s, n / 10);
    }
    let d: usize = n % 10;
    let c: char = match d {
        0 => '0',
        1 => '1',
        2 => '2',
        3 => '3',
        4 => '4',
        5 => '5',
        6 => '6',
        7 => '7',
        8 => '8',
        _ => '9',
    };
    s.push(c);
    assert(s@ =~= before + decimal(n as nat));
}

impl Defect {
    /// What is reported of the fault.
    pub open spec fn words(self) -> Seq<char> {
        match self {
            Defect::LengthWithoutTree => "non-zero total_len with empty tree"@,
            Defect::LeafLength { computed, stored } => "leaf subtree_len mismatch: computed="@
                + decimal(computed as nat) + ", stored="@ + decimal(stored as nat),
            Defect::NoChildren => "internal node has no children"@,
            Defect::InternalLength { computed, stored } =>
                "internal subtree_len mismatch: computed="@ + decimal(computed as nat)
                + ", stored="@ + decimal(stored as nat),
            Defect::RootLength { computed, total } => "root length mismatch: computed="@ + decimal(
                computed as nat,
            ) + ", total="@ + decimal(total as nat),
            Defect::EmptyPiece => "zero-length piece found"@,
            Defect::FileBounds => "file piece out of bounds"@,
            Defect::AddBounds => "add piece out of bounds"@,
            Defect::Coalescible => "adjacent coalescible pieces found"@,
            Defect::PieceSum { sum, total } => "piece sum mismatch: piece_sum="@ + decimal(
                sum as nat,
            ) + ", total_len="@ + decimal(total as nat),
            Defect::IndexLength { index, total } => "index length mismatch: index="@ + decimal(
                index as nat,
            ) + ", total="@ + decimal(total as nat),
            Defect::MissingRoot => "missing index root on non-empty table"@,
        }
    }

    /// What is reported of the fault.
    pub fn message(&self) -> (s: String)
        ensures
            s@ == self.words(),
    {
        match self {
            Defect::LengthWithoutTree => "non-zero total_len with empty tree".to_string(),
            Defect::LeafLength { computed, stored } => compare(
                "leaf subtree_len mismatch: computed=",
                *computed,
                ", stored=",
                *stored,
            ),
            Defect::NoChildren => "internal node has no children".to_string(),
            Defect::InternalLength { computed, stored } => compare(
                "internal subtree_len mismatch: computed=",
                *computed,
                ", stored=",
                *stored,
            ),
            Defect::RootLength { computed, total } => compare(
                "root length mismatch: computed=",
                *computed,
                ", total=",
                *total,
            ),
            Defect::EmptyPiece => "zero-length piece found".to_string(),
            Defect::FileBounds => "file piece out of bounds".to_string(),
            Defect::AddBounds => "add piece out of bounds".to_string(),
            Defect::Coalescible => "adjacent coalescible pieces found".to_string(),
            Defect::PieceSum { sum, total } => compare(
                "piece sum mismatch: piece_sum=",
                *sum,
                ", total_len=",
                *total,
            ),
            Defect::IndexLength { index, total } => compare(
                "index length mismatch: index=",
                *index,
                ", total=",
                *total,
            ),
            Defect::MissingRoot => "missing index root on non-empty table".to_string(),
        }
    }
}

fn compare(first: &str, a: usize, second: &str, b: usize) -> (s: String)
    ensures
        s@ == first@ + decimal(a as nat) + second@ + decimal(b as nat),
{
    let mut s = first.to_string();
    push_decimal(&mut s, a);
    s.append(second);
    push_decimal(&mut s, b);
    s
}

/// The report on a table with the given fault, if there is one.
pub open spec fn reports(r: Result<(), String>, fault: Option<Defect>) -> bool {
    match fault {
        None => r is Ok,
        Some(d) => r matches Err(s) && s@ == d.words(),
    }
}

/// The report on a table with the given fault, if there is one.
pub(crate) fn report(fault: Option<Defect>) -> (r: Result<(), String>)
    ensures
        reports(r, fault),
{
    match fault {
        None => Ok(()),
        Some(d) => Err(d.message()),
    }
}

/// What is wrong with a piece over buffers of the given lengths.
pub open spec fn piece_fault(p: Piece, file_len: int, add_len: int) -> Option<Defect> {
    if p.start == p.end {
        Some(Defect::EmptyPiece)
    } else if p.buffer == BufferKind::File && p.end > file_len {
        Some(Defect::FileBounds)
    } else if p.buffer == BufferKind::Add && p.end > add_len {
        Some(Defect::AddBounds)
    } else {
        None
    }
}

/// What is wrong with the first faulty piece.
pub open spec fn bounds_fault(ps: Seq<Piece>, file_len: int, add_len: int) -> Option<Defect>
    decreases ps.len(),
{
    if ps.len() == 0 {
        None
    } else {
        match bounds_fault(ps.drop_last(), file_len, add_len) {
            Some(d) => Some(d),
            None => piece_fault(ps.last(), file_len, add_len),
        }
    }
}

/// What is wrong with a list of pieces: the first faulty piece counts before neighbours that
/// could be one.
pub open spec fn pieces_fault(ps: Seq<Piece>, file_len: int, add_len: int) -> Option<Defect> {
    match bounds_fault(ps, file_len, add_len) {
        Some(d) => Some(d),
        None => if tidy(ps) {
            None
        } else {
            Some(Defect::Coalescible)
        },
    }
}

/// What is wrong with a list of pieces over buffers of the given lengths.
pub(crate) fn check_pieces(pieces: &Vec<Piece>, file_len: usize, add_len: usize) -> (r: Option<
    Defect,
>)
    requires
        all_ordered(pieces@),
    ensures
        r == pieces_fault(pieces@, file_len as int, add_len as int),
{
    for i in 0..pieces.len()
        invariant
            all_ordered(pieces@),
            bounds_fault(pieces@.take(i as int), file_len as int, add_len as int) is None,
    {
        let piece = &pieces[i];
        let fault = if piece.len() == 0 {
            Some(Defect::EmptyPiece)
        } else {
            match piece.buffer {
                BufferKind::File => if piece.end > file_len {
                    Some(Defect::FileBounds)
                } else {
                    None
                },
                BufferKind::Add => if piece.end > add_len {
                    Some(Defect::AddBounds)
                } else {
                    None
                },
            }
        };
        proof {
            assert(pieces@.take(i + 1).drop_last() =~= pieces@.take(i as int));
        }
        if fault.is_some() {
            proof {
                lemma_first_fault(pieces@, i as int, file_len as int, add_len as int);
            }
            return fault;
        }
    }
    assert(pieces@.take(pieces@.len() as int) =~= pieces@);
    let mut i: usize = 1;
    while i < pieces.len()
        invariant
            1 <= i,
            forall|k: int| 0 <= k < i - 1 && k < pieces@.len() - 1 ==> !#[trigger] loose(pieces@, k),
            bounds_fault(pieces@, file_len as int, add_len as int) is None,
        decreases pieces.len() - i,
    {
        if can_coalesce(&pieces[i - 1], &pieces[i]) {
            assert(loose(pieces@, i - 1));
            return Some(Defect::Coalescible);
        }
        i += 1;
    }
    None
}

proof fn lemma_first_fault(ps: Seq<Piece>, i: int, file_len: int, add_len: int)
    requires
        0 <= i < ps.len(),
        bounds_fault(ps.take(i + 1), file_len, add_len) is Some,
    ensures
        bounds_fault(ps, file_len, add_len) == bounds_fault(ps.take(i + 1), file_len, add_len),
    decreases ps.len(),
{
    if i + 1 == ps.len() {
        assert(ps.take(i + 1) =~= ps);
    } else {
        assert(ps.drop_last().take(i + 1) =~= ps.take(i + 1));
        lemma_first_fault(ps.drop_last(), i, file_len, add_len);
    }
}

/// The pieces below the nodes, in order.
pub open spec fn flat_all(s: Seq<Box<BNode>>) -> Seq<Piece>
    decreases s,
{
    if s.len() == 0 {
        Seq::empty()
    } else {
        flat_all(s.drop_last()) + s.last().flat()
    }
}

/// What is wrong with the first faulty node.
pub open spec fn fault_all(s: Seq<Box<BNode>>) -> Option<Defect>
    decreases s,
{
    if s.len() == 0 {
        None
    } else {
        match fault_all(s.drop_last()) {
            Some(d) => Some(d),
            None => s.last().fault(),
        }
    }
}

impl BNode {
    /// The pieces below this node, in order.
    pub open spec fn flat(self) -> Seq<Piece>
        decreases self,
    {
        match self {
            BNode::Leaf { pieces, .. } => pieces@,
            BNode::Internal { children, .. } => flat_all(children@),
        }
    }

    /// What is wrong with the records below this node, children before parents and from left to
    /// right.
    pub open spec fn fault(self) -> Option<Defect>
        decreases self,
    {
        match self {
            BNode::Leaf { pieces, subtree_len } => if subtree_len == marks_of(pieces@).len() {
                None
            } else {
                Some(
                    Defect::LeafLength {
                        computed: marks_of(pieces@).len() as usize,
                        stored: subtree_len,
                    },
                )
            },
            BNode::Internal { children, subtree_len } => if children@.len() == 0 {
                Some(Defect::NoChildren)
            } else {
                match fault_all(children@) {
                    Some(d) => Some(d),
                    None => if subtree_len == marks_all(children@).len() {
                        None
                    } else {
                        Some(
                            Defect::InternalLength {
                                computed: marks_all(children@).len() as usize,
                                stored: subtree_len,
                            },
                        )
                    },
                }
            },
        }
    }
}

pub(crate) proof fn lemma_flat_marks(n: BNode)
    ensures
        marks_of(n.flat()) == n.marks(),
    decreases n,
{
    match n {
        BNode::Leaf { .. } => {},
        BNode::Internal { children, .. } => {
            lemma_flat_all_marks(children@);
        },
    }
}

pub(crate) proof fn lemma_flat_all_marks(s: Seq<Box<BNode>>)
    ensures
        marks_of(flat_all(s)) == marks_all(s),
    decreases s,
{
    if s.len() > 0 {
        lemma_flat_all_marks(s.drop_last());
        lemma_flat_marks(*s.last());
        lemma_marks_add(flat_all(s.drop_last()), s.last().flat());
    }
}

pub(crate) proof fn lemma_flat_all_at(s: Seq<Box<BNode>>, i: int)
    requires
        0 <= i < s.len(),
    ensures
        flat_all(s.take(i + 1)) == flat_all(s.take(i)) + s[i].flat(),
        fault_all(s.take(i + 1)) == (match fault_all(s.take(i)) {
            Some(d) => Some(d),
            None => s[i].fault(),
        }),
        marks_all(s.take(i + 1)) == marks_all(s.take(i)) + s[i].marks(),
{
    assert(s.take(i + 1).drop_last() =~= s.take(i));
}

pub(crate) proof fn lemma_first_faulty_node(s: Seq<Box<BNode>>, i: int)
    requires
        0 <= i <= s.len(),
        fault_all(s.take(i)) is Some,
    ensures
        fault_all(s) == fault_all(s.take(i)),
    decreases s.len(),
{
    if i == s.len() {
        assert(s.take(i) =~= s);
    } else {
        assert(s.drop_last().take(i) =~= s.take(i));
        lemma_first_faulty_node(s.drop_last(), i);
    }
}

pub(crate) proof fn lemma_flat_prefix(s: Seq<Box<BNode>>, i: int)
    requires
        0 <= i <= s.len(),
    ensures
        flat_all(s.take(i)).len() <= flat_all(s).len(),
        forall|k: int|
            0 <= k < flat_all(s.take(i)).len() ==> flat_all(s.take(i))[k] == #[trigger] flat_all(
                s,
            )[k],
        marks_all(s.take(i)).len() <= marks_all(s).len(),
    decreases s.len(),
{
    if i == s.len() {
        assert(s.take(i) =~= s);
    } else {
        lemma_flat_prefix(s.drop_last(), i);
        assert(s.drop_last().take(i) =~= s.take(i));
    }
}

impl BNode {
    /// Checks the lengths that are recorded below this node, and appends its pieces to `out`.
    pub(crate) fn validate_and_collect(&self, out: &mut Vec<Piece>) -> (r: Result<usize, Defect>)
        requires
            all_ordered(self.flat()),
            self.marks().len() <= usize::MAX,
        ensures
            match r {
                Ok(n) => {
                    &&& self.fault() is None
                    &&& n == self.marks().len()
                    &&& final(out)@ == old(out)@ + self.flat()
                },
                Err(d) => self.fault() == Some(d),
            },
        decreases self,
    {
        match self {
            BNode::Leaf { pieces, subtree_len } => {
                let computed = pieces_len(pieces);
                if computed != *subtree_len {
                    return Err(Defect::LeafLength { computed, stored: *subtree_len });
                }
                for i in 0..pieces.len()
                    invariant
                        out@ == old(out)@ + pieces@.take(i as int),
                {
                    out.push(pieces[i]);
                    assert(out@ =~= old(out)@ + pieces@.take(i + 1));
                }
                assert(pieces@.take(pieces@.len() as int) =~= pieces@);
                Ok(computed)
            },
            BNode::Internal { children, subtree_len } => {
                if children.len() == 0 {
                    return Err(Defect::NoChildren);
                }
                let mut computed: usize = 0;
                for i in 0..children.len()
                    invariant
                        self matches BNode::Internal { children: c, .. } && c == children,
                        children@.len() > 0,
                        all_ordered(flat_all(children@)),
                        marks_all(children@).len() <= usize::MAX,
                        fault_all(children@.take(i as int)) is None,
                        computed == marks_all(children@.take(i as int)).len(),
                        out@ == old(out)@ + flat_all(children@.take(i as int)),
                {
                    proof {
                        let ghost_i = i as int;
                        lemma_flat_all_at(children@, ghost_i);
                        lemma_flat_prefix(children@, ghost_i + 1);
                        lemma_ordered_child(children@, ghost_i);
                    }
                    match children[i].validate_and_collect(out) {
                        Ok(n) => {
                            computed += n;
                            assert(out@ =~= old(out)@ + flat_all(children@.take(i + 1)));
                        },
                        Err(d) => {
                            proof {
                                lemma_first_faulty_node(children@, i + 1);
                            }
                            return Err(d);
                        },
                    }
                }
                assert(children@.take(children@.len() as int) =~= children@);
                if computed != *subtree_len {
                    return Err(Defect::InternalLength { computed, stored: *subtree_len });
                }
                Ok(computed)
            },
        }
    }
}

pub(crate) proof fn lemma_ordered_child(s: Seq<Box<BNode>>, i: int)
    requires
        0 <= i < s.len(),
        all_ordered(flat_all(s)),
    ensures
        all_ordered(s[i].flat()),
{
    lemma_flat_all_at(s, i);
    lemma_flat_prefix(s, i + 1);
    let before = flat_all(s.take(i));
    let f = s[i].flat();
    assert forall|k: int| 0 <= k < f.len() implies (#[trigger] f[k]).start <= f[k].end by {
        assert(f[k] == flat_all(s.take(i + 1))[before.len() + k]);
        assert(f[k] == flat_all(s)[before.len() + k]);
    }
}

/// Sound pieces that lie within their buffers are not at fault.
proof fn lemma_bounds_right(ps: Seq<Piece>, file_len: int, add_len: int)
    requires
        all_sound(ps),
        within(marks_of(ps), file_len, add_len),
    ensures
        bounds_fault(ps, file_len, add_len) is None,
    decreases ps.len(),
{
    if ps.len() > 0 {
        let m = marks_of(ps);
        let p = ps.last();
        let rest = marks_of(ps.drop_last());
        assert(p.sound());
        assert forall|k: int| 0 <= k < rest.len() implies 0 <= (#[trigger] rest[k]).at < (
        match rest[k].buffer {
            BufferKind::File => file_len,
            BufferKind::Add => add_len,
        }) by {
            assert(rest[k] == m[k]);
        }
        assert forall|k: int| 0 <= k < ps.len() - 1 implies (#[trigger] ps.drop_last()[k]).sound() by {
            assert(ps[k].sound());
        }
        lemma_bounds_right(ps.drop_last(), file_len, add_len);
        assert(m[m.len() - 1] == p.marks()[p.end - p.start - 1]);
    }
}

/// A valid list of pieces is not at fault.
pub(crate) proof fn lemma_pieces_right(ps: Seq<Piece>, file_len: int, add_len: int)
    requires
        all_sound(ps),
        within(marks_of(ps), file_len, add_len),
        settled(marks_of(ps)),
    ensures
        pieces_fault(ps, file_len, add_len) is None,
{
    lemma_bounds_right(ps, file_len, add_len);
    lemma_tidy_settled(ps);
}

/// Pieces that are not at fault are sound and lie within their buffers.
proof fn lemma_bounds_clear(ps: Seq<Piece>, file_len: int, add_len: int)
    requires
        all_ordered(ps),
        bounds_fault(ps, file_len, add_len) is None,
    ensures
        all_sound(ps),
        within(marks_of(ps), file_len, add_len),
    decreases ps.len(),
{
    if ps.len() > 0 {
        let front = ps.drop_last();
        let p = ps.last();
        assert(p == ps[ps.len() - 1]);
        assert(all_ordered(front)) by {
            assert forall|i: int| 0 <= i < front.len() implies (#[trigger] front[i]).start
                <= front[i].end by {
                assert(ps[i].start <= ps[i].end);
            }
        }
        lemma_bounds_clear(front, file_len, add_len);
        assert forall|i: int| 0 <= i < ps.len() implies (#[trigger] ps[i]).sound() by {
            if i < front.len() {
                assert(front[i].sound());
            }
        }
        let m = marks_of(ps);
        let rest = marks_of(front);
        assert forall|k: int| 0 <= k < m.len() implies 0 <= (#[trigger] m[k]).at < (
        match m[k].buffer {
            BufferKind::File => file_len,
            BufferKind::Add => add_len,
        }) by {
            if k < rest.len() {
                assert(m[k] == rest[k]);
            } else {
                assert(m[k] == p.marks()[k - rest.len()]);
            }
        }
    }
}

/// A list of pieces that is not at fault is valid.
pub(crate) proof fn lemma_pieces_clear(ps: Seq<Piece>, file_len: int, add_len: int)
    requires
        all_ordered(ps),
        pieces_fault(ps, file_len, add_len) is None,
    ensures
        all_sound(ps),
        within(marks_of(ps), file_len, add_len),
        settled(marks_of(ps)),
{
    lemma_bounds_clear(ps, file_len, add_len);
    lemma_tidy_settled(ps);
}

/// The records of a valid node are right.
pub(crate) proof fn lemma_node_right(n: BNode, h: nat)
    requires
        n.wf(h),
    ensures
        n.fault() is None,
        all_sound(n.flat()),
        marks_of(n.flat()) == n.marks(),
    decreases h, 1int, 0nat,
{
    lemma_flat_marks(n);
    match n {
        BNode::Leaf { .. } => {},
        BNode::Internal { children, .. } => {
            lemma_nodes_right(children@, (h - 1) as nat);
        },
    }
}

proof fn lemma_nodes_right(s: Seq<Box<BNode>>, h: nat)
    requires
        kids_wf(s, h),
    ensures
        fault_all(s) is None,
        all_sound(flat_all(s)),
    decreases h, 2int, s.len(),
{
    if s.len() > 0 {
        assert(s.last() == s[s.len() - 1]);
        assert(s.last().wf(h));
        assert forall|i: int| 0 <= i < s.len() - 1 implies (#[trigger] s.drop_last()[i]).wf(h) by {
            assert(s[i].wf(h));
        }
        lemma_nodes_right(s.drop_last(), h);
        lemma_node_right(*s.last(), h);
        let a = flat_all(s.drop_last());
        let b = s.last().flat();
        assert forall|k: int| 0 <= k < (a + b).len() implies (#[trigger] (a + b)[k]).sound() by {
            if k < a.len() {
                assert(a[k].sound());
            } else {
                assert(b[k - a.len()].sound());
            }
        }
    }
}

} // verus!
