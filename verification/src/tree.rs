//! The B+ tree that holds the pieces of a document in order.
use vstd::prelude::*;

use crate::list::pieces_len;
use crate::piece::{
    all_sound, coherent, inside, lemma_coherent_add, lemma_marks_at, lemma_marks_coherent,
    lemma_marks_opens, lemma_marks_prefix, marks_of, opens, Mark, Piece,
};

verus! {

/// A leaf with more pieces than this is split.
pub const LEAF_MAX_PIECES: usize = 64;

/// An internal node with more children than this is split.
pub const INTERNAL_MAX_CHILDREN: usize = 32;

/// A leaf with fewer pieces than this takes some from its neighbours.
pub const LEAF_MIN_PIECES: usize = 32;

/// An internal node with fewer children than this takes some from its neighbours.
pub const INTERNAL_MIN_CHILDREN: usize = 16;

/// A node of the tree, which records how many elements its pieces stand for.
#[derive(Debug)]
pub enum BNode {
    Leaf { pieces: Vec<Piece>, subtree_len: usize },
    Internal { children: Vec<Box<BNode>>, subtree_len: usize },
}

pub type Tree = Option<Box<BNode>>;

impl BNode {
    /// The marks of the pieces below this node, in order.
    pub open spec fn marks(self) -> Seq<Mark>
        decreases self,
    {
        match self {
            BNode::Leaf { pieces, .. } => marks_of(pieces@),
            BNode::Internal { children, .. } => marks_all(children@),
        }
    }

    /// The recorded number of elements.
    pub open spec fn span(self) -> usize {
        match self {
            BNode::Leaf { subtree_len, .. } => subtree_len,
            BNode::Internal { subtree_len, .. } => subtree_len,
        }
    }

    /// How many nodes there are in the tree below this node, itself among them.
    pub open spec fn size(self) -> nat
        decreases self,
    {
        match self {
            BNode::Leaf { .. } => 1,
            BNode::Internal { children, .. } => 1 + size_all(children@),
        }
    }

    /// How many nodes there are on the way down along the first children.
    pub open spec fn tall(self) -> nat
        decreases self,
    {
        match self {
            BNode::Leaf { .. } => 1,
            BNode::Internal { children, .. } => {
                if children@.len() == 0 {
                    1
                } else {
                    1 + children@[0].tall()
                }
            },
        }
    }

    /// Every leaf lies `depth` levels down, this node being on the first.
    pub open spec fn leaves_lie_at(self, depth: nat) -> bool
        decreases self,
    {
        match self {
            BNode::Leaf { .. } => depth == 1,
            BNode::Internal { children, .. } => depth > 1 && forall|i: int|
                0 <= i < children@.len() ==> (#[trigger] children@[i]).leaves_lie_at(
                    (depth - 1) as nat,
                ),
        }
    }

    /// How many pieces or children the node has.
    pub open spec fn fill(self) -> nat {
        match self {
            BNode::Leaf { pieces, .. } => pieces@.len(),
            BNode::Internal { children, .. } => children@.len(),
        }
    }

    /// All that is asked of a node of height `h`, except that an internal node has a child: every
    /// leaf is `h - 1` levels down, no piece is empty, and the recorded lengths are right.
    pub open spec fn ok(self, h: nat) -> bool
        decreases h, 0int,
    {
        match self {
            BNode::Leaf { pieces, subtree_len } => {
                &&& h == 1
                &&& all_sound(pieces@)
                &&& subtree_len == marks_of(pieces@).len()
            },
            BNode::Internal { children, subtree_len } => {
                &&& h > 1
                &&& forall|i: int|
                    0 <= i < children@.len() ==> (#[trigger] children@[i]).wf((h - 1) as nat)
                &&& subtree_len == marks_all(children@).len()
            },
        }
    }

    /// A valid node of height `h`.
    pub open spec fn wf(self, h: nat) -> bool
        decreases h, 1int,
    {
        &&& self.ok(h)
        &&& self is Internal ==> self.fill() > 0
    }
}

/// The marks of all the pieces below the nodes, in order.
pub open spec fn marks_all(s: Seq<Box<BNode>>) -> Seq<Mark>
    decreases s,
{
    if s.len() == 0 {
        Seq::empty()
    } else {
        marks_all(s.drop_last()) + s.last().marks()
    }
}

/// How many nodes there are in all.
pub open spec fn size_all(s: Seq<Box<BNode>>) -> nat
    decreases s,
{
    if s.len() == 0 {
        0
    } else {
        size_all(s.drop_last()) + s.last().size()
    }
}

pub open spec fn kids_wf(s: Seq<Box<BNode>>, h: nat) -> bool {
    forall|i: int| 0 <= i < s.len() ==> (#[trigger] s[i]).wf(h)
}

/// The nodes have the same pieces, or the same children.
pub open spec fn same_parts(a: BNode, b: BNode) -> bool {
    match (a, b) {
        (BNode::Leaf { pieces: p, .. }, BNode::Leaf { pieces: q, .. }) => p@ == q@,
        (BNode::Internal { children: c, .. }, BNode::Internal { children: d, .. }) => c@ == d@,
        _ => false,
    }
}

/// A position in the document below a node, found in piece `p`, which begins at `start`.
pub open spec fn lies_at(m: Seq<Mark>, p: Piece, start: int) -> bool {
    &&& p.sound()
    &&& 0 <= start
    &&& start + (p.end - p.start) <= m.len()
    &&& m.subrange(start, start + (p.end - p.start)) == p.marks()
    &&& opens(m.skip(start + (p.end - p.start)))
}

pub proof fn lemma_all_add(a: Seq<Box<BNode>>, b: Seq<Box<BNode>>)
    ensures
        marks_all(a + b) == marks_all(a) + marks_all(b),
        size_all(a + b) == size_all(a) + size_all(b),
    decreases b.len(),
{
    if b.len() == 0 {
        assert(a + b =~= a);
        assert(marks_all(a) + marks_all(b) =~= marks_all(a));
    } else {
        lemma_all_add(a, b.drop_last());
        assert((a + b).drop_last() =~= a + b.drop_last());
        assert((a + b).last() == b.last());
        assert(marks_all(a) + marks_all(b) =~= (marks_all(a) + marks_all(b.drop_last()))
            + b.last().marks());
    }
}

pub proof fn lemma_all_one(n: Box<BNode>)
    ensures
        marks_all(seq![n]) == n.marks(),
        size_all(seq![n]) == n.size(),
{
    let s = seq![n];
    assert(s.drop_last() =~= Seq::empty());
    assert(s.last() == n);
    assert(marks_all(s.drop_last()) =~= Seq::empty());
    assert(size_all(s.drop_last()) == 0);
    assert(marks_all(s) =~= n.marks());
}

pub proof fn lemma_all_split(s: Seq<Box<BNode>>, i: int)
    requires
        0 <= i <= s.len(),
    ensures
        marks_all(s) == marks_all(s.take(i)) + marks_all(s.skip(i)),
        size_all(s) == size_all(s.take(i)) + size_all(s.skip(i)),
{
    assert(s =~= s.take(i) + s.skip(i));
    lemma_all_add(s.take(i), s.skip(i));
}

/// Node `i` among its siblings.
pub proof fn lemma_all_at(s: Seq<Box<BNode>>, i: int)
    requires
        0 <= i < s.len(),
    ensures
        marks_all(s) == marks_all(s.take(i)) + s[i].marks() + marks_all(s.skip(i + 1)),
        marks_all(s.take(i + 1)) == marks_all(s.take(i)) + s[i].marks(),
        marks_all(s.skip(i)) == s[i].marks() + marks_all(s.skip(i + 1)),
        size_all(s) == size_all(s.take(i)) + s[i].size() + size_all(s.skip(i + 1)),
{
    lemma_all_split(s, i + 1);
    assert(s.take(i + 1) =~= s.take(i) + seq![s[i]]);
    lemma_all_add(s.take(i), seq![s[i]]);
    lemma_all_one(s[i]);
    assert(s.skip(i) =~= seq![s[i]] + s.skip(i + 1));
    lemma_all_add(seq![s[i]], s.skip(i + 1));
}

/// Node `i` replaced by the nodes `xs`.
pub proof fn lemma_all_replace(s: Seq<Box<BNode>>, t: Seq<Box<BNode>>, i: int, xs: Seq<Box<BNode>>)
    requires
        0 <= i < s.len(),
        t == s.take(i) + xs + s.skip(i + 1),
    ensures
        marks_all(t) == marks_all(s.take(i)) + marks_all(xs) + marks_all(s.skip(i + 1)),
        size_all(t) == size_all(s.take(i)) + size_all(xs) + size_all(s.skip(i + 1)),
{
    lemma_all_add(s.take(i) + xs, s.skip(i + 1));
    lemma_all_add(s.take(i), xs);
}

/// Node `i` replaced by the node `x`.
pub proof fn lemma_all_update(s: Seq<Box<BNode>>, i: int, x: Box<BNode>)
    requires
        0 <= i < s.len(),
    ensures
        marks_all(s.update(i, x)) == marks_all(s.take(i)) + x.marks() + marks_all(s.skip(i + 1)),
        size_all(s.update(i, x)) == size_all(s.take(i)) + x.size() + size_all(s.skip(i + 1)),
{
    assert(s.update(i, x) =~= s.take(i) + seq![x] + s.skip(i + 1));
    lemma_all_replace(s, s.update(i, x), i, seq![x]);
    lemma_all_one(x);
}

/// Node `i` taken out.
pub proof fn lemma_all_remove(s: Seq<Box<BNode>>, i: int)
    requires
        0 <= i < s.len(),
    ensures
        marks_all(s.remove(i)) == marks_all(s.take(i)) + marks_all(s.skip(i + 1)),
        size_all(s.remove(i)) + s[i].size() == size_all(s),
{
    assert(s.remove(i) =~= s.take(i) + s.skip(i + 1));
    lemma_all_add(s.take(i), s.skip(i + 1));
    lemma_all_at(s, i);
}

/// Two neighbours among their siblings.
pub proof fn lemma_all_pair(s: Seq<Box<BNode>>, i: int)
    requires
        0 <= i < s.len() - 1,
    ensures
        marks_all(s) == marks_all(s.take(i)) + (s[i].marks() + s[i + 1].marks()) + marks_all(
            s.skip(i + 2),
        ),
        size_all(s) == size_all(s.take(i)) + s[i].size() + s[i + 1].size() + size_all(
            s.skip(i + 2),
        ),
{
    lemma_all_at(s, i);
    assert(s.skip(i + 1)[0] == s[i + 1]);
    lemma_all_at(s.skip(i + 1), 0);
    assert(s.skip(i + 1).take(0) =~= Seq::empty());
    assert(s.skip(i + 1).skip(1) =~= s.skip(i + 2));
    assert(marks_all(s) =~= marks_all(s.take(i)) + (s[i].marks() + s[i + 1].marks()) + marks_all(
        s.skip(i + 2),
    ));
}

pub proof fn lemma_opens_add(a: Seq<Mark>, b: Seq<Mark>)
    requires
        opens(a),
        opens(b),
    ensures
        opens(a + b),
{
}

/// The document below a node begins with a piece.
pub proof fn lemma_node_opens(n: BNode, h: nat)
    requires
        n.ok(h),
    ensures
        opens(n.marks()),
    decreases n,
{
    match n {
        BNode::Leaf { pieces, .. } => {
            lemma_marks_opens(pieces@);
        },
        BNode::Internal { children, .. } => {
            lemma_all_opens(children@, (h - 1) as nat);
        },
    }
}

pub proof fn lemma_all_opens(s: Seq<Box<BNode>>, h: nat)
    requires
        kids_wf(s, h),
    ensures
        opens(marks_all(s)),
    decreases s,
{
    if s.len() > 0 {
        lemma_all_opens(s.drop_last(), h);
        assert(s.last().wf(h));
        lemma_node_opens(*s.last(), h);
        lemma_opens_add(marks_all(s.drop_last()), s.last().marks());
    }
}

/// The marks below a node are those of pieces.
pub proof fn lemma_node_coherent(n: BNode, h: nat)
    requires
        n.ok(h),
    ensures
        coherent(n.marks()),
    decreases n,
{
    match n {
        BNode::Leaf { pieces, .. } => {
            lemma_marks_coherent(pieces@);
        },
        BNode::Internal { children, .. } => {
            lemma_all_coherent(children@, (h - 1) as nat);
        },
    }
}

pub proof fn lemma_all_coherent(s: Seq<Box<BNode>>, h: nat)
    requires
        kids_wf(s, h),
    ensures
        coherent(marks_all(s)),
    decreases s,
{
    if s.len() > 0 {
        lemma_all_coherent(s.drop_last(), h);
        assert(s.last().wf(h));
        lemma_node_coherent(*s.last(), h);
        lemma_node_opens(*s.last(), h);
        lemma_coherent_add(marks_all(s.drop_last()), s.last().marks());
    }
}

/// The height of a valid node is the length of the way down along the first children.
pub proof fn lemma_tall(n: BNode, h: nat)
    requires
        n.wf(h),
    ensures
        n.tall() == h,
    decreases n,
{
    match n {
        BNode::Leaf { .. } => {},
        BNode::Internal { children, .. } => {
            assert(children@[0].wf((h - 1) as nat));
            lemma_tall(*children@[0], (h - 1) as nat);
        },
    }
}

pub proof fn lemma_leaves(n: BNode, h: nat)
    requires
        n.wf(h),
    ensures
        n.leaves_lie_at(h),
    decreases n,
{
    match n {
        BNode::Leaf { .. } => {},
        BNode::Internal { children, .. } => {
            assert forall|i: int| 0 <= i < children@.len() implies (
            #[trigger] children@[i]).leaves_lie_at((h - 1) as nat) by {
                assert(children@[i].wf((h - 1) as nat));
                lemma_leaves(*children@[i], (h - 1) as nat);
            }
        },
    }
}

/// The recorded lengths of valid siblings add up.
pub proof fn lemma_all_prefix(s: Seq<Box<BNode>>, i: int, h: nat)
    requires
        kids_wf(s, h),
        0 <= i < s.len(),
    ensures
        s[i].span() == s[i].marks().len(),
        marks_all(s.take(i)).len() + s[i].span() == marks_all(s.take(i + 1)).len(),
        marks_all(s.take(i + 1)).len() <= marks_all(s).len(),
{
    assert(s[i].wf(h));
    lemma_all_at(s, i);
}

/// A position inside a piece of the middle part of a document is inside a piece of the document.
pub proof fn lemma_inside_within(a: Seq<Mark>, b: Seq<Mark>, c: Seq<Mark>, pos: int)
    requires
        opens(b),
        opens(c),
        0 <= pos <= b.len(),
    ensures
        inside(a + b + c, a.len() + pos) == inside(b, pos),
{
    let m = a + b + c;
    if pos < b.len() {
        assert(m[a.len() + pos] == b[pos]);
    } else if c.len() > 0 {
        assert(m[a.len() + pos] == c[0]);
    }
}

/// A piece of the middle part of a document is a piece of the document.
pub proof fn lemma_lies_within(a: Seq<Mark>, b: Seq<Mark>, c: Seq<Mark>, p: Piece, start: int)
    requires
        lies_at(b, p, start),
        opens(c),
    ensures
        lies_at(a + b + c, p, a.len() + start),
{
    let m = a + b + c;
    let n = p.end - p.start;
    let s = a.len() + start;
    assert(m.subrange(s, s + n) =~= b.subrange(start, start + n));
    if start + n < b.len() {
        assert(m.skip(s + n)[0] == b.skip(start + n)[0]);
    } else if c.len() > 0 {
        assert(m.skip(s + n)[0] == c[0]);
    }
}

/// How many elements there are below the nodes.
pub(crate) fn children_len(children: &Vec<Box<BNode>>, Ghost(h): Ghost<nat>) -> (n: usize)
    requires
        kids_wf(children@, h),
        marks_all(children@).len() <= usize::MAX,
    ensures
        n == marks_all(children@).len(),
{
    let mut sum: usize = 0;
    for i in 0..children.len()
        invariant
            kids_wf(children@, h),
            marks_all(children@).len() <= usize::MAX,
            sum == marks_all(children@.take(i as int)).len(),
    {
        proof {
            lemma_all_prefix(children@, i as int, h);
        }
        sum += children[i].len();
    }
    assert(children@.take(children@.len() as int) =~= children@);
    sum
}

/// The child in which position `pos` lies, or the last one if there is none, and the position at
/// which it begins.
pub(crate) fn child_index_and_start_for_pos(
    children: &Vec<Box<BNode>>,
    pos: usize,
    Ghost(h): Ghost<nat>,
) -> (r: (usize, usize))
    requires
        kids_wf(children@, h),
        children@.len() > 0,
        marks_all(children@).len() <= usize::MAX,
    ensures
        r.0 < children@.len(),
        r.1 == marks_all(children@.take(r.0 as int)).len(),
        pos < marks_all(children@).len() ==> r.1 <= pos < r.1 + children@[r.0 as int].span(),
        pos >= marks_all(children@).len() ==> r.0 == children@.len() - 1 && r.1
            + children@[r.0 as int].span() == marks_all(children@).len(),
{
    let mut consumed: usize = 0;
    for i in 0..children.len()
        invariant
            kids_wf(children@, h),
            marks_all(children@).len() <= usize::MAX,
            consumed == marks_all(children@.take(i as int)).len(),
            consumed <= pos,
    {
        proof {
            lemma_all_prefix(children@, i as int, h);
        }
        let end = consumed + children[i].len();
        if pos < end {
            return (i, consumed);
        }
        consumed = end;
    }
    assert(children@.take(children@.len() as int) =~= children@);
    let last_idx = children.len() - 1;
    proof {
        lemma_all_prefix(children@, last_idx as int, h);
    }
    let last_start = consumed - children[last_idx].len();
    (last_idx, last_start)
}

/// The numbers of the children on the way down from `n` to the leaf that holds element `index`.
pub open spec fn route(n: BNode, index: int) -> Seq<usize>
    decreases n,
{
    match n {
        BNode::Leaf { .. } => Seq::empty(),
        BNode::Internal { children, .. } => {
            let i = child_at(children@, index);
            if 0 <= i < children@.len() {
                seq![i as usize] + route(
                    *children@[i],
                    index - marks_all(children@.take(i)).len(),
                )
            } else {
                Seq::empty()
            }
        },
    }
}

/// The number of the node among siblings in which element `index` lies.
pub open spec fn child_at(s: Seq<Box<BNode>>, index: int) -> int {
    choose|i: int|
        0 <= i < s.len() && marks_all(#[trigger] s.take(i)).len() <= index < marks_all(
            s.take(i),
        ).len() + s[i].marks().len()
}

proof fn lemma_all_take_le(s: Seq<Box<BNode>>, i: int, j: int)
    requires
        0 <= i <= j <= s.len(),
    ensures
        marks_all(s.take(i)).len() <= marks_all(s.take(j)).len(),
{
    lemma_all_split(s.take(j), i);
    assert(s.take(j).take(i) =~= s.take(i));
}

proof fn lemma_child_at(s: Seq<Box<BNode>>, index: int, i: int)
    requires
        0 <= i < s.len(),
        marks_all(s.take(i)).len() <= index < marks_all(s.take(i)).len() + s[i].marks().len(),
    ensures
        child_at(s, index) == i,
{
    let j = child_at(s, index);
    assert(0 <= j < s.len() && marks_all(s.take(j)).len() <= index < marks_all(s.take(j)).len()
        + s[j].marks().len());
    lemma_all_at(s, i);
    lemma_all_at(s, j);
    if j < i {
        lemma_all_take_le(s, j + 1, i);
    } else if i < j {
        lemma_all_take_le(s, i + 1, j);
    }
}

/// The piece of a leaf in which position `index` lies, the place in that piece, and the position
/// at which the piece begins, counted from `base`.
pub(crate) fn find_in_leaf(pieces: &Vec<Piece>, index: usize, base: usize) -> (r: (&Piece, usize, usize))
    requires
        all_sound(pieces@),
        index < marks_of(pieces@).len(),
        base + marks_of(pieces@).len() <= usize::MAX,
    ensures
        r.2 + r.1 == base + index,
        r.1 < r.0.end - r.0.start,
        base <= r.2,
        lies_at(marks_of(pieces@), *r.0, r.2 - base),
{
    let mut rest: usize = index;
    let mut pos: usize = base;
    for i in 0..pieces.len()
        invariant
            all_sound(pieces@),
            index < marks_of(pieces@).len(),
            base + marks_of(pieces@).len() <= usize::MAX,
            pos == base + marks_of(pieces@.take(i as int)).len(),
            rest + pos == base + index,
    {
        let piece = &pieces[i];
        proof {
            assert(pieces@[i as int].sound());
            lemma_marks_prefix(pieces@, i as int);
        }
        let len = piece.len();
        if rest < len {
            proof {
                let a = marks_of(pieces@.take(i as int));
                let c = marks_of(pieces@.skip(i + 1));
                lemma_marks_at(pieces@, i as int);
                lemma_marks_opens(pieces@.skip(i + 1));
                assert(piece.marks().subrange(0, piece.end - piece.start) =~= piece.marks());
                assert(piece.marks().skip(piece.end - piece.start) =~= Seq::empty());
                lemma_lies_within(a, piece.marks(), c, *piece, 0);
            }
            return (piece, rest, pos);
        }
        rest -= len;
        pos += len;
    }
    assert(pieces@.take(pieces@.len() as int) =~= pieces@);
    proof {
        assert(false);
    }
    (&pieces[0], 0, 0)
}

impl BNode {
    pub(crate) fn len(&self) -> (n: usize)
        ensures
            n == self.span(),
    {
        match self {
            BNode::Leaf { subtree_len, .. } => *subtree_len,
            BNode::Internal { subtree_len, .. } => *subtree_len,
        }
    }

    /// The number of levels, counted along the first children; `usize::MAX` if it is larger.
    pub(crate) fn height(&self) -> (n: usize)
        ensures
            n == (if self.tall() <= usize::MAX {
                self.tall() as int
            } else {
                usize::MAX as int
            }),
        decreases self,
    {
        match self {
            BNode::Leaf { .. } => 1,
            BNode::Internal { children, .. } => {
                if children.len() == 0 {
                    1
                } else {
                    children[0].height().saturating_add(1)
                }
            },
        }
    }

    /// Records the number of elements anew.
    pub(crate) fn update_len(&mut self, Ghost(h): Ghost<nat>)
        requires
            match *old(self) {
                BNode::Leaf { pieces, .. } => h == 1 && all_sound(pieces@),
                BNode::Internal { children, .. } => h > 1 && kids_wf(children@, (h - 1) as nat),
            },
            old(self).marks().len() <= usize::MAX,
        ensures
            final(self).ok(h),
            same_parts(*old(self), *final(self)),
    {
        match self {
            BNode::Leaf { pieces, subtree_len } => {
                *subtree_len = pieces_len(pieces);
            },
            BNode::Internal { children, subtree_len } => {
                *subtree_len = children_len(children, Ghost((h - 1) as nat));
            },
        }
    }

    /// The piece in which element `index` lies, the place in that piece, and the position at
    /// which the piece begins, counted from `base`.
    pub(crate) fn find(&self, index: usize, base: usize, Ghost(h): Ghost<nat>) -> (r: (
        &Piece,
        usize,
        usize,
    ))
        requires
            self.wf(h),
            index < self.span(),
            base + self.span() <= usize::MAX,
        ensures
            r.2 + r.1 == base + index,
            r.1 < r.0.end - r.0.start,
            base <= r.2,
            lies_at(self.marks(), *r.0, r.2 - base),
        decreases h,
    {
        match self {
            BNode::Leaf { pieces, .. } => find_in_leaf(pieces, index, base),
            BNode::Internal { children, .. } => {
                let ghost k = (h - 1) as nat;
                let mut rest: usize = index;
                let mut consumed: usize = 0;
                for i in 0..children.len()
                    invariant
                        self matches BNode::Internal { children: c, .. } && c == children,
                        k == h - 1,
                        h > 0,
                        kids_wf(children@, k),
                        self.marks() == marks_all(children@),
                        index < self.marks().len(),
                        base + self.marks().len() <= usize::MAX,
                        consumed == marks_all(children@.take(i as int)).len(),
                        rest + consumed == index,
                {
                    proof {
                        lemma_all_prefix(children@, i as int, k);
                    }
                    let child = &children[i];
                    let child_len = child.len();
                    if rest < child_len {
                        let r = child.find(rest, base + consumed, Ghost(k));
                        proof {
                            lemma_all_at(children@, i as int);
                            lemma_all_opens(children@.skip(i + 1), k);
                            lemma_lies_within(
                                marks_all(children@.take(i as int)),
                                child.marks(),
                                marks_all(children@.skip(i + 1)),
                                *r.0,
                                r.2 - (base + consumed),
                            );
                        }
                        return r;
                    }
                    rest -= child_len;
                    consumed += child_len;
                }
                assert(children@.take(children@.len() as int) =~= children@);
                proof {
                    assert(false);
                }
                children[0].find(0, 0, Ghost(k))
            },
        }
    }

    /// As [`BNode::find`]; also appends the numbers of the children passed on the way down to
    /// `path`.
    pub(crate) fn find_with_path<'a>(
        &'a self,
        index: usize,
        base: usize,
        path: &mut Vec<usize>,
        Ghost(h): Ghost<nat>,
    ) -> (r: (&'a Piece, usize, usize))
        requires
            self.wf(h),
            index < self.span(),
            base + self.span() <= usize::MAX,
        ensures
            r.2 + r.1 == base + index,
            r.1 < r.0.end - r.0.start,
            base <= r.2,
            lies_at(self.marks(), *r.0, r.2 - base),
            final(path)@ == old(path)@ + route(*self, index as int),
        decreases h,
    {
        match self {
            BNode::Leaf { pieces, .. } => {
                assert(path@ + route(*self, index as int) =~= path@);
                find_in_leaf(pieces, index, base)
            },
            BNode::Internal { children, .. } => {
                let ghost k = (h - 1) as nat;
                let ghost before = path@;
                let (child_idx, child_start) = child_index_and_start_for_pos(
                    children,
                    index,
                    Ghost(k),
                );
                let ghost i = child_idx as int;
                proof {
                    lemma_all_prefix(children@, i, k);
                    lemma_all_at(children@, i);
                    lemma_all_opens(children@.skip(i + 1), k);
                    lemma_child_at(children@, index as int, i);
                }
                path.push(child_idx);
                let r = children[child_idx].find_with_path(
                    index - child_start,
                    base + child_start,
                    path,
                    Ghost(k),
                );
                proof {
                    lemma_lies_within(
                        marks_all(children@.take(i)),
                        children@[i].marks(),
                        marks_all(children@.skip(i + 1)),
                        *r.0,
                        r.2 - (base + child_start),
                    );
                    assert(path@ =~= before + route(*self, index as int));
                }
                r
            },
        }
    }
}

/// A store of nodes that are no longer used, to be used again.
///
/// It also keeps the books on the nodes of a tree, which only its model sees.
pub struct NodePool {
    free: Vec<Box<BNode>>,
    made: Ghost<nat>,
    merged: Ghost<nat>,
    freed: Ghost<nat>,
}

impl NodePool {
    /// How many nodes are in the store.
    pub closed spec fn count(self) -> nat {
        self.free@.len()
    }

    /// Whether the nodes in the store are empty.
    pub closed spec fn hollow(self) -> bool {
        forall|i: int| 0 <= i < self.free@.len() ==> (#[trigger] self.free@[i]).fill() == 0
    }

    /// How many nodes were ever made.
    pub closed spec fn made(self) -> nat {
        self.made@
    }

    /// How many nodes were ever given back because all they held was moved into a neighbour.
    pub closed spec fn merged(self) -> nat {
        self.merged@
    }

    /// How many nodes were ever given back.
    pub closed spec fn freed(self) -> nat {
        self.freed@
    }

    pub(crate) fn new() -> (pool: NodePool)
        ensures
            pool.count() == 0,
            pool.hollow(),
            pool.made() == 0,
            pool.merged() == 0,
            pool.freed() == 0,
    {
        NodePool { free: Vec::new(), made: Ghost(0), merged: Ghost(0), freed: Ghost(0) }
    }

    /// A box for `node`, from the store if there is one.
    pub(crate) fn alloc_node(&mut self, node: BNode) -> (r: Box<BNode>)
        ensures
            *r == node,
            final(self).count() == (if old(self).count() > 0 {
                old(self).count() - 1
            } else {
                0
            }),
            old(self).hollow() ==> final(self).hollow(),
            only_made(*old(self), *final(self), 1),
    {
        proof {
            self.made@ = self.made@ + 1;
        }
        if let Some(mut slot) = self.free.pop() {
            *slot = node;
            slot
        } else {
            Box::new(node)
        }
    }

    /// Empties `node` and every node below it, and takes them into the store.
    pub(crate) fn recycle(&mut self, node: Box<BNode>)
        ensures
            final(self).count() == old(self).count() + node.size(),
            old(self).hollow() ==> final(self).hollow(),
            final(self).made() == old(self).made(),
            final(self).merged() == old(self).merged(),
            final(self).freed() == old(self).freed() + node.size(),
        decreases node.size(),
    {
        let mut slot = node;
        match &mut *slot {
            BNode::Leaf { pieces, .. } => {
                pieces.clear();
            },
            BNode::Internal { children, .. } => {
                let ghost all = children@;
                while children.len() > 0
                    invariant
                        node.size() == 1 + size_all(all),
                        size_all(children@) <= size_all(all),
                        self.count() + size_all(children@) == old(self).count() + size_all(all),
                        self.made() == old(self).made(),
                        self.merged() == old(self).merged(),
                        self.freed() + size_all(children@) == old(self).freed() + size_all(all),
                        old(self).hollow() ==> self.hollow(),
                    decreases children@.len(),
                {
                    let ghost some = children@;
                    let child = children.pop().unwrap();
                    assert(some.drop_last() =~= children@);
                    self.recycle(child);
                }
            },
        }
        self.free.push(slot);
        proof {
            self.freed@ = self.freed@ + 1;
        }
    }

    /// Takes `node`, all of whose contents were moved into a neighbour, into the store.
    pub(crate) fn recycle_merged(&mut self, node: Box<BNode>)
        requires
            node.fill() == 0,
        ensures
            old(self).hollow() ==> final(self).hollow(),
            final(self).made() == old(self).made(),
            final(self).merged() == old(self).merged() + 1,
            final(self).freed() == old(self).freed() + 1,
    {
        proof {
            self.merged@ = self.merged@ + 1;
            reveal_with_fuel(size_all, 2);
        }
        self.recycle(node);
    }
}

/// Between the two states of the store `n` nodes were made, and none was given back.
pub open spec fn only_made(before: NodePool, after: NodePool, n: int) -> bool {
    &&& after.made() == before.made() + n
    &&& after.merged() == before.merged()
    &&& after.freed() == before.freed()
}

/// Between the two states of the store `n` nodes were given back after their entries were merged
/// into a neighbour, and none was made.
pub open spec fn only_merged(before: NodePool, after: NodePool, n: int) -> bool {
    &&& after.made() == before.made()
    &&& after.merged() == before.merged() + n
    &&& after.freed() == before.freed() + n
}

/// Between the two states of the store the nodes of a tree went from `nodes_before` to
/// `nodes_after`: every node made is there now or was given back.
pub open spec fn books_kept(
    before: NodePool,
    after: NodePool,
    nodes_before: int,
    nodes_after: int,
) -> bool {
    &&& before.made() <= after.made()
    &&& before.merged() <= after.merged()
    &&& after.merged() - before.merged() <= after.freed() - before.freed()
    &&& nodes_after + (after.freed() - before.freed()) == nodes_before + (after.made()
        - before.made())
}

} // verus!
