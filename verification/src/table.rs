//! The primary piece table.
use vstd::cell::invcell::InvCell;
use vstd::predicate::Predicate;
use vstd::prelude::*;

use crate::balance::{fits, lemma_fits, roomy, spare};
use crate::content::{
    holds_run, inserted, lemma_cut_text, lemma_fused_kept, lemma_fused_text, lemma_holds_run,
    removed, text, within,
};
use crate::defect::{
    check_pieces, lemma_flat_marks, lemma_node_right, lemma_pieces_clear, lemma_pieces_right,
    pieces_fault, report, reports, Defect,
};
use crate::document::{
    delete_run, insert_run, lemma_tree_marks, tree_filled, tree_half_full, tree_tall, tree_wf,
};
use crate::edit::{ends_at, nearly_fed_kids, opt_marks, opt_size};
use crate::list::one_if;
use crate::piece::{
    all_ordered, coherent, cut, distinct, fused, heads, inside, joined, lemma_marks_one, settled,
    BufferKind, Mark, Piece,
};
use crate::stats::{delete_counted, insert_counted, lemma_counted_none, tallied, Stats};
use crate::tree::{lies_at, BNode, NodePool, Tree};

verus! {

/// A piece and the positions it covers: the elements of `buffer` from `buffer_start` on are those
/// of the document from `piece_start` up to `piece_end`.
#[derive(Clone, Copy, Debug, PartialEq, Eq, Structural)]
pub(crate) struct AccessCache {
    pub(crate) piece_start: usize,
    pub(crate) piece_end: usize,
    pub(crate) buffer: BufferKind,
    pub(crate) buffer_start: usize,
}

impl AccessCache {
    /// What the entry says holds of a document `text` over the two buffers.
    pub(crate) open spec fn right<T>(self, original: Seq<T>, add: Seq<T>, text: Seq<T>) -> bool {
        let held = match self.buffer {
            BufferKind::File => original,
            BufferKind::Add => add,
        };
        &&& self.piece_start <= self.piece_end <= text.len()
        &&& self.buffer_start + (self.piece_end - self.piece_start) <= held.len()
        &&& forall|i: int|
            self.piece_start <= i < self.piece_end ==> #[trigger] text[i] == held[self.buffer_start
                + (i - self.piece_start)]
    }
}

/// Allows an access cache to hold what is right for one state of a table, and nothing else.
pub(crate) struct CacheRule<T> {
    pub(crate) original: Seq<T>,
    pub(crate) add: Seq<T>,
    pub(crate) text: Seq<T>,
}

impl<T> Predicate<Option<AccessCache>> for CacheRule<T> {
    closed spec fn predicate(&self, v: Option<AccessCache>) -> bool {
        v matches Some(c) ==> c.right(self.original, self.add, self.text)
    }
}

/// Primary piece-table backend using a pooled B+ tree.
pub struct PieceTable<T> {
    pub(crate) original: Vec<T>,
    pub(crate) add: Vec<T>,
    pub(crate) root: Tree,
    pub(crate) total_len: usize,
    pub(crate) stats: Stats,
    pub(crate) debug_checks_enabled: bool,
    pub(crate) last_access: InvCell<Option<AccessCache>, CacheRule<T>>,
    pub(crate) pool: NodePool,
}

impl<T> View for PieceTable<T> {
    type V = Seq<T>;

    /// The elements of the document.
    open(crate) spec fn view(&self) -> Seq<T> {
        text(self.marks(), self.original@, self.add@)
    }
}

impl<T> PieceTable<T> {
    /// The marks of the pieces of the document, in order.
    pub open(crate) spec fn marks(&self) -> Seq<Mark> {
        opt_marks(self.root)
    }

    /// The tree that holds the pieces.
    pub open(crate) spec fn tree(&self) -> Tree {
        self.root
    }

    /// How many nodes the tree has.
    pub open(crate) spec fn nodes(&self) -> nat {
        opt_size(self.root)
    }

    /// How many nodes were ever made for the tree.
    pub open(crate) spec fn nodes_made(&self) -> nat {
        self.pool.made()
    }

    /// How many nodes were ever given up because all they held was moved into a neighbour.
    pub open(crate) spec fn nodes_merged(&self) -> nat {
        self.pool.merged()
    }

    /// How many nodes were ever given up, for that reason or another.
    pub open(crate) spec fn nodes_freed(&self) -> nat {
        self.pool.freed()
    }

    /// No node has more pieces or children than it is to have.
    pub open(crate) spec fn fits(&self) -> bool {
        self.root matches Some(n) ==> fits(*n)
    }

    /// Every node but the root has at least as many pieces or children as it is to have.
    pub open(crate) spec fn half_full(&self) -> bool {
        tree_half_full(self.root)
    }

    /// Every leaf has a piece.
    pub open(crate) spec fn filled(&self) -> bool {
        tree_filled(self.root)
    }

    /// The children of the root, if it has any, are empty or lack at most one entry of those that
    /// they are to have at least.
    pub open(crate) spec fn nearly_half_full(&self) -> bool {
        self.root matches Some(n) ==> nearly_fed_kids(*n)
    }

    /// Whether the piece that ends before position `pos` ends with the element that was inserted
    /// last, so that an insertion there grows it.
    pub open(crate) spec fn extends(&self, pos: int) -> bool {
        ends_at(self.marks(), pos, BufferKind::Add, self.add@.len() as int)
    }

    /// Every leaf can take `k` more pieces.
    pub open(crate) spec fn has_room(&self, k: int) -> bool {
        self.root matches Some(n) ==> roomy(*n, k)
    }

    /// Every node that is no leaf can take one more child.
    pub open(crate) spec fn has_spare_children(&self) -> bool {
        self.root matches Some(n) ==> spare(*n)
    }

    /// How many levels the tree has.
    pub open(crate) spec fn levels(&self) -> nat {
        tree_tall(self.root)
    }

    /// Whether position `pos` is inside a piece.
    pub open(crate) spec fn splits(&self, pos: int) -> bool {
        inside(self.marks(), pos)
    }

    /// Whether the element before position `pos` and the one `len` elements further on are
    /// neighbours in one buffer.
    pub open(crate) spec fn meets(&self, pos: int, len: int) -> bool {
        joined(cut(self.marks(), pos, len), pos)
    }

    /// How many elements were ever inserted.
    pub open(crate) spec fn added(&self) -> nat {
        self.add@.len()
    }

    /// How many elements the document began with.
    pub open(crate) spec fn original_len(&self) -> nat {
        self.original@.len()
    }

    /// The recorded number of elements.
    pub open(crate) spec fn recorded_len(&self) -> usize {
        self.total_len
    }

    pub closed spec fn counts(&self) -> Stats {
        self.stats
    }

    pub closed spec fn checks(&self) -> bool {
        self.debug_checks_enabled
    }

    /// Validity: the tree is valid and records the right length, no node of it has more entries
    /// than it is to have, every piece lies within its buffer, no two neighbouring pieces could be
    /// one, no element of a buffer is in the document twice, what the access cache holds is right,
    /// every node that was made is in the tree or was given up, and the tree has no more levels
    /// than there were elements inserted and deleted, and one.
    pub open(crate) spec fn wf(&self) -> bool {
        &&& self.wf_document()
        &&& self.wf_rest()
    }

    /// The lengths of the pieces can be added up: none ends before it begins, and the sum is a
    /// `usize`.
    pub open(crate) spec fn countable(&self) -> bool {
        self.root matches Some(n) ==> all_ordered(n.flat()) && n.marks().len() <= usize::MAX
    }

    /// What is wrong with the records of the table.
    pub open(crate) spec fn defect(&self) -> Option<Defect> {
        match self.root {
            None => if self.total_len == 0 {
                None
            } else {
                Some(Defect::LengthWithoutTree)
            },
            Some(n) => match n.fault() {
                Some(d) => Some(d),
                None => if n.marks().len() == self.total_len {
                    pieces_fault(n.flat(), self.original@.len() as int, self.add@.len() as int)
                } else {
                    Some(
                        Defect::RootLength {
                            computed: n.marks().len() as usize,
                            total: self.total_len,
                        },
                    )
                },
            },
        }
    }

    /// A valid table can be checked, and nothing is found to be wrong with it.
    pub proof fn lemma_valid(&self)
        requires
            self.wf(),
        ensures
            self.countable(),
            self.defect() is None,
    {
        lemma_tree_marks(self.root);
        match self.root {
            None => {},
            Some(n) => {
                lemma_node_right(*n, n.tall());
                lemma_pieces_right(
                    n.flat(),
                    self.original@.len() as int,
                    self.add@.len() as int,
                );
            },
        }
    }

    /// Where nothing is found to be wrong, the recorded length is right, every piece lies within
    /// its buffer, and no two neighbouring pieces could be one.
    pub proof fn lemma_no_defect(&self)
        requires
            self.countable(),
            self.defect() is None,
        ensures
            self.recorded_len() == self.marks().len(),
            within(self.marks(), self.original_len() as int, self.added() as int),
            settled(self.marks()),
    {
        match self.root {
            None => {},
            Some(n) => {
                lemma_flat_marks(*n);
                lemma_pieces_clear(
                    n.flat(),
                    self.original@.len() as int,
                    self.add@.len() as int,
                );
            },
        }
    }

    pub(crate) open spec fn wf_document(&self) -> bool {
        &&& tree_wf(self.root)
        &&& self.total_len == self.marks().len()
        &&& within(self.marks(), self.original@.len() as int, self.add@.len() as int)
        &&& settled(self.marks())
        &&& distinct(self.marks())
        &&& tree_tall(self.root) + self.total_len <= self.original@.len() + 2 * self.add@.len() + 1
        &&& opt_size(self.root) + self.pool.freed() == self.pool.made()
    }

    pub(crate) closed spec fn wf_rest(&self) -> bool {
        &&& self.pool.hollow()
        &&& self.last_access.predicate() == (CacheRule {
            original: self.original@,
            add: self.add@,
            text: self@,
        })
    }
}

/// `n`, or `usize::MAX` if that is less.
pub open spec fn saturated(n: int) -> int {
    if n <= usize::MAX {
        n
    } else {
        usize::MAX as int
    }
}

/// A `Vec` can hold `n` elements of type `T`.
pub open spec fn fits_vec<T>(n: int) -> bool {
    n <= usize::MAX && n * vstd::layout::size_of::<T>() <= isize::MAX
}

/// Where the elements of the add buffer from `start` on were put in, a piece ends with the last.
proof fn lemma_run_ends(m: Seq<Mark>, pos: int, start: int, end: int, n: Seq<Mark>, file_len: int)
    requires
        0 <= pos <= m.len(),
        start < end,
        holds_run(m, pos, start, end, n),
        coherent(n),
        within(n, file_len, end),
    ensures
        ends_at(n, pos + (end - start), BufferKind::Add, end),
{
    let k = pos + (end - start);
    assert(n[k - 1].buffer == BufferKind::Add && n[k - 1].at == end - 1);
    if k < n.len() && !n[k].head {
        assert(joined(n, k));
        assert(n[k].at < end);
    }
}

/// A cache entry for a piece that lies at `start` is right.
pub(crate) proof fn lemma_cache_right<T>(
    m: Seq<Mark>,
    p: Piece,
    start: int,
    c: AccessCache,
    original: Seq<T>,
    add: Seq<T>,
)
    requires
        lies_at(m, p, start),
        within(m, original.len() as int, add.len() as int),
        c.piece_start == start,
        c.piece_end == start + (p.end - p.start),
        c.buffer == p.buffer,
        c.buffer_start == p.start,
    ensures
        c.right(original, add, text(m, original, add)),
{
    let x = p.marks();
    let held = match c.buffer {
        BufferKind::File => original,
        BufferKind::Add => add,
    };
    assert forall|i: int| c.piece_start <= i < c.piece_end implies m[i].buffer == p.buffer
        && #[trigger] m[i].at == p.start + (i - start) by {
        assert(m[i] == m.subrange(start, start + (p.end - p.start))[i - start]);
        assert(m[i] == x[i - start]);
    }
    assert(m[c.piece_end - 1].at < held.len());
    assert forall|i: int| c.piece_start <= i < c.piece_end implies #[trigger] text(
        m,
        original,
        add,
    )[i] == held[c.buffer_start + (i - c.piece_start)] by {
        assert(m[i].at == p.start + (i - start));
    }
}

impl<T: Clone + PartialEq> PieceTable<T> {
    pub fn new(initial: Vec<T>) -> (table: Self)
        ensures
            table.wf(),
            table@ == initial@,
            table.counts() == Stats::zero(),
            !table.checks(),
            table.added() == 0,
            table.original_len() == initial@.len(),
            table.levels() == one_if(initial@.len() > 0),
            table.nodes() == one_if(initial@.len() > 0),
            table.fits(),
            table.half_full(),
            table.filled(),
    {
        let total_len = initial.len();
        let mut pool = NodePool::new();
        let ghost m = (Piece { buffer: BufferKind::File, start: 0, end: total_len }).marks();
        let root = if total_len > 0 {
            let piece = Piece { buffer: BufferKind::File, start: 0, end: total_len };
            let mut pieces: Vec<Piece> = Vec::new();
            pieces.push(piece);
            proof {
                assert(pieces@ =~= seq![piece]);
                lemma_marks_one(piece);
            }
            let node = pool.alloc_node(BNode::Leaf { pieces, subtree_len: total_len });
            assert(node.wf(1));
            proof {
                lemma_fits(*node);
            }
            Some(node)
        } else {
            None
        };
        let add: Vec<T> = Vec::new();
        proof {
            assert(opt_marks(root) =~= m);
            assert(text(m, initial@, add@) =~= initial@);
            assert forall|k: int| 0 <= k < m.len() && (#[trigger] m[k]).head implies !joined(
                m,
                k,
            ) by {}
        }
        let last_access = InvCell::new(
            None,
            Ghost(CacheRule { original: initial@, add: add@, text: initial@ }),
        );
        PieceTable {
            original: initial,
            add,
            root,
            total_len,
            stats: Stats::default(),
            debug_checks_enabled: false,
            last_access,
            pool,
        }
    }

    pub fn len(&self) -> (n: usize)
        requires
            self.wf(),
        ensures
            n == self@.len(),
    {
        self.total_len
    }

    pub fn is_empty(&self) -> (b: bool)
        requires
            self.wf(),
        ensures
            b == (self@.len() == 0),
    {
        self.total_len == 0
    }

    pub fn stats(&self) -> (stats: Stats)
        ensures
            stats == self.counts(),
    {
        self.stats
    }

    pub fn reset_stats(&mut self)
        ensures
            final(self).added() == old(self).added(),
            final(self).original_len() == old(self).original_len(),
            final(self)@ == old(self)@,
            old(self).wf() ==> final(self).wf(),
            final(self).counts() == Stats::zero(),
            final(self).checks() == old(self).checks(),
            final(self).marks() == old(self).marks(),
            final(self).nodes() == old(self).nodes(),
            final(self).levels() == old(self).levels(),
            final(self).tree() == old(self).tree(),
    {
        self.stats = Stats::default();
    }

    /// Sets whether each edit is followed by a check of the table. It is not, to begin with.
    pub fn set_debug_checks_enabled(&mut self, enabled: bool)
        ensures
            final(self).added() == old(self).added(),
            final(self).original_len() == old(self).original_len(),
            final(self)@ == old(self)@,
            old(self).wf() ==> final(self).wf(),
            final(self).counts() == old(self).counts(),
            final(self).checks() == enabled,
            final(self).marks() == old(self).marks(),
            final(self).nodes() == old(self).nodes(),
            final(self).levels() == old(self).levels(),
            final(self).tree() == old(self).tree(),
    {
        self.debug_checks_enabled = enabled;
    }

    pub fn debug_checks_enabled(&self) -> (enabled: bool)
        ensures
            enabled == self.checks(),
    {
        self.debug_checks_enabled
    }

    /// Makes room for `additional` more inserted elements.
    pub fn reserve_additional(&mut self, additional: usize)
        requires
            fits_vec::<T>(old(self).added() + additional),
        ensures
            final(self).added() == old(self).added(),
            final(self).original_len() == old(self).original_len(),
            final(self)@ == old(self)@,
            old(self).wf() ==> final(self).wf(),
            final(self).counts() == old(self).counts(),
            final(self).checks() == old(self).checks(),
            final(self).marks() == old(self).marks(),
            final(self).nodes() == old(self).nodes(),
            final(self).levels() == old(self).levels(),
            final(self).tree() == old(self).tree(),
    {
        self.add.reserve(additional);
    }

    /// Makes room for as many insertions of the given length.
    pub fn reserve_for_edits(&mut self, estimated_insert_ops: usize, avg_insert_len: usize)
        requires
            fits_vec::<T>(
                old(self).added() + saturated(estimated_insert_ops * avg_insert_len),
            ),
        ensures
            final(self).added() == old(self).added(),
            final(self).original_len() == old(self).original_len(),
            final(self)@ == old(self)@,
            old(self).wf() ==> final(self).wf(),
            final(self).counts() == old(self).counts(),
            final(self).checks() == old(self).checks(),
            final(self).marks() == old(self).marks(),
            final(self).nodes() == old(self).nodes(),
            final(self).levels() == old(self).levels(),
            final(self).tree() == old(self).tree(),
    {
        let additional = match estimated_insert_ops.checked_mul(avg_insert_len) {
            Some(n) => n,
            None => usize::MAX,
        };
        self.add.reserve(additional);
    }

    /// The number of levels of the tree.
    pub fn height(&self) -> (n: usize)
        ensures
            n == (if self.levels() <= usize::MAX {
                self.levels() as int
            } else {
                usize::MAX as int
            }),
            self.wf() && self.original_len() + 2 * self.added() < usize::MAX ==> n == self.levels(),
            self.wf() ==> (n == 0 <==> self@.len() == 0),
    {
        proof {
            if self.wf() {
                lemma_tree_marks(self.root);
            }
        }
        match &self.root {
            Some(root) => root.height(),
            None => 0,
        }
    }

    /// The root of the tree.
    pub fn root(&self) -> (r: Option<&BNode>)
        ensures
            match (r, self.tree()) {
                (Some(n), Some(t)) => *n == *t,
                (None, None) => true,
                _ => false,
            },
    {
        match &self.root {
            Some(root) => Some(&**root),
            None => None,
        }
    }

    /// Puts clones of the elements of `data` in before position `pos`.
    pub fn insert(&mut self, pos: usize, data: &[T])
        requires
            old(self).wf(),
            pos <= old(self)@.len(),
            old(self)@.len() + data@.len() <= usize::MAX,
        ensures
            final(self).wf(),
            inserted(old(self)@, pos as int, data@, final(self)@),
            final(self).checks() == old(self).checks(),
            data@.len() == 0 ==> *final(self) == *old(self),
            final(self).added() == old(self).added() + data@.len(),
            final(self).original_len() == old(self).original_len(),
            old(self).levels() <= final(self).levels() <= old(self).levels() + 1,
            data@.len() > 0 ==> old(self).after_insert(
                pos as int,
                data@.len() as int,
                *final(self),
            ),
            data@.len() > 0 ==> holds_run(
                old(self).marks(),
                pos as int,
                old(self).added() as int,
                (old(self).added() + data@.len()) as int,
                final(self).marks(),
            ),
    {
        if data.len() == 0 {
            assert(self@.take(pos as int) =~= self@.take(pos as int));
            return;
        }
        let ghost m = self.marks();
        let ghost before = self@;
        let ghost held = self.add@;
        let ghost counts = self.stats;
        let start = self.add.len();
        self.add.extend_from_slice(data);
        let end = self.add.len();
        proof {
            lemma_tree_marks(self.root);
            assert(within(m, self.original@.len() as int, start as int));
        }
        let tree = self.root.take();
        self.root = insert_run(tree, pos, start, end, &mut self.stats, &mut self.pool);
        self.total_len += data.len();
        proof {
            reveal(tallied);
            lemma_tree_marks(self.root);
            lemma_holds_run(m, pos as int, self.marks(), self.original@, held, self.add@, data@);
            lemma_counted_none(counts.merge_calls, self.stats.merge_calls);
            lemma_counted_none(counts.coalesces, self.stats.coalesces);
            lemma_run_ends(
                m,
                pos as int,
                start as int,
                end as int,
                self.marks(),
                self.original@.len() as int,
            );
        }
        self.stats.note_insert();
        self.last_access = InvCell::new(
            None,
            Ghost(CacheRule { original: self.original@, add: self.add@, text: self@ }),
        );
        self.post_mutation_debug_validate();
    }

    /// Takes the `len` elements from position `pos` on out.
    pub fn delete(&mut self, pos: usize, len: usize)
        requires
            old(self).wf(),
            pos <= old(self)@.len(),
            len <= old(self)@.len() - pos,
        ensures
            final(self).wf(),
            final(self)@ == removed(old(self)@, pos as int, len as int),
            final(self).checks() == old(self).checks(),
            len == 0 ==> *final(self) == *old(self),
            len > 0 ==> old(self).after_delete(pos as int, len as int, *final(self)),
            len > 0 ==> fused(
                cut(old(self).marks(), pos as int, len as int),
                final(self).marks(),
            ),
            final(self).added() == old(self).added(),
            final(self).original_len() == old(self).original_len(),
            final(self).levels() <= old(self).levels() + one_if(
                old(self).splits(pos as int) && old(self).splits(pos + len),
            ),
    {
        if len == 0 {
            assert(removed(self@, pos as int, 0) =~= self@);
            return;
        }
        let ghost this = *self;
        let ghost m = self.marks();
        let ghost counts = self.stats;
        proof {
            lemma_tree_marks(self.root);
            lemma_cut_text(m, pos as int, len as int, self.original@, self.add@);
        }
        match self.root.take() {
            None => {
                return;
            },
            Some(root) => {
                self.root = delete_run(root, pos, len, &mut self.stats, &mut self.pool);
            },
        }
        self.total_len -= len;
        let ghost seen = self.stats;
        proof {
            lemma_tree_marks(self.root);
            lemma_fused_text(cut(m, pos as int, len as int), self.marks(), self.original@, self.add@);
            lemma_fused_kept(
                cut(m, pos as int, len as int),
                self.marks(),
                self.original@.len() as int,
                self.add@.len() as int,
            );
        }
        self.stats.note_delete();
        self.last_access = InvCell::new(
            None,
            Ghost(CacheRule { original: self.original@, add: self.add@, text: self@ }),
        );
        proof {
            reveal(tallied);
            assert(this.after_delete(pos as int, len as int, *self));
        }
        self.post_mutation_debug_validate();
    }

    /// Checks the records of the table.
    pub fn validate(&self) -> (r: Result<(), String>)
        requires
            self.wf() || self.countable(),
        ensures
            reports(r, self.defect()),
            self.wf() ==> r is Ok,
    {
        proof {
            if self.wf() {
                self.lemma_valid();
            }
        }
        report(self.find_defect())
    }

    fn find_defect(&self) -> (r: Option<Defect>)
        requires
            self.countable(),
        ensures
            r == self.defect(),
    {
        match &self.root {
            None => if self.total_len != 0 {
                Some(Defect::LengthWithoutTree)
            } else {
                None
            },
            Some(root) => {
                let mut flat: Vec<Piece> = Vec::new();
                match root.validate_and_collect(&mut flat) {
                    Err(d) => Some(d),
                    Ok(computed) => {
                        assert(flat@ =~= root.flat());
                        if computed != self.total_len {
                            Some(Defect::RootLength { computed, total: self.total_len })
                        } else {
                            check_pieces(&flat, self.original.len(), self.add.len())
                        }
                    },
                }
            },
        }
    }

    /// Checks a table that was just edited, if checks are enabled. The check always succeeds.
    fn post_mutation_debug_validate(&self)
        requires
            self.wf(),
    {
        if self.debug_checks_enabled {
            let _outcome = self.validate();
            assert(_outcome is Ok);
        }
    }

    /// The element at `index`.
    pub fn get(&self, index: usize) -> (r: Option<&T>)
        requires
            self.wf(),
        ensures
            r == (if index < self@.len() {
                Some(&self@[index as int])
            } else {
                None
            }),
    {
        if index >= self.total_len {
            return None;
        }
        if let Some(cache) = self.last_access.get() {
            if index >= cache.piece_start && index < cache.piece_end {
                return Some(self.read(cache, index));
            }
        }
        let found = self.locate(index);
        self.last_access.set(Some(found));
        Some(self.read(found, index))
    }

    /// The element at `index`, which lies in the piece of `cache`.
    fn read(&self, cache: AccessCache, index: usize) -> (r: &T)
        requires
            cache.right(self.original@, self.add@, self@),
            cache.piece_start <= index < cache.piece_end,
        ensures
            *r == self@[index as int],
    {
        assert(self.original.len() <= usize::MAX && self.add.len() <= usize::MAX);
        let buffer_index = cache.buffer_start + (index - cache.piece_start);
        match cache.buffer {
            BufferKind::File => &self.original[buffer_index],
            BufferKind::Add => &self.add[buffer_index],
        }
    }

    /// The piece in which the element at `index` lies.
    fn locate(&self, index: usize) -> (c: AccessCache)
        requires
            self.wf_document(),
            index < self@.len(),
        ensures
            c.right(self.original@, self.add@, self@),
            c.piece_start <= index < c.piece_end,
    {
        proof {
            lemma_tree_marks(self.root);
        }
        let root = self.root.as_ref().unwrap();
        let ghost h = root.tall();
        let (piece, offset, piece_start) = root.find(index, 0, Ghost(h));
        let found = AccessCache {
            piece_start,
            piece_end: piece_start + piece.len(),
            buffer: piece.buffer,
            buffer_start: piece.start,
        };
        proof {
            lemma_cache_right(
                self.marks(),
                *piece,
                piece_start as int,
                found,
                self.original@,
                self.add@,
            );
        }
        found
    }
}

impl<T> PieceTable<T> {
    /// What an insertion of `len` elements before position `pos` makes of the counters and of the
    /// tree.
    ///
    /// The piece that it cut and the nodes that it made are counted as splits, except for the first
    /// node of an empty document. Where it grows a piece it makes no node, nor where every leaf has
    /// room for the pieces that it adds; where every other node has room for one more child, it
    /// makes at most one, and a root if there was only a leaf. Where every node but the root was at
    /// least half full, this is so after it.
    pub open spec fn after_insert(&self, pos: int, len: int, after: PieceTable<T>) -> bool {
        &&& insert_counted(
            self.counts(),
            after.counts(),
            one_if(self.splits(pos)) + (if self@.len() == 0 {
                0
            } else {
                after.nodes() - self.nodes()
            }),
        )
        &&& self@.len() == 0 ==> after.nodes() == 1 && after.levels() == 1
        &&& after.extends(pos + len)
        &&& self.extends(pos) ==> !self.splits(pos) && after.nodes() == self.nodes()
        &&& self@.len() > 0 && self.has_room(1 + one_if(self.splits(pos))) ==> after.nodes()
            == self.nodes()
        &&& self@.len() > 0 && self.has_spare_children() ==> after.nodes() <= self.nodes() + 1
            + one_if(self.levels() == 1)
        &&& self.half_full() ==> after.half_full()
        &&& self.filled() ==> after.filled()
        &&& after.nodes_merged() == self.nodes_merged()
        &&& after.nodes_freed() == self.nodes_freed()
    }

    /// What the deletion of `len` elements from position `pos` on makes of the counters and of the
    /// tree.
    ///
    /// The pieces that it cut and the nodes that it made are counted as splits, the pieces and the
    /// nodes that it merged as merges. It makes no node, unless the range lies inside of one piece
    /// and some leaf has no room for one more. Unless the tree lost a level, the children of the
    /// root are half full but for one entry. Where every node but the root was at least half full,
    /// and no piece is taken out whole, no node is merged.
    pub open spec fn after_delete(&self, pos: int, len: int, after: PieceTable<T>) -> bool {
        &&& delete_counted(
            self.counts(),
            after.counts(),
            one_if(self.splits(pos)) + one_if(self.splits(pos + len)) + (after.nodes_made()
                - self.nodes_made()),
            one_if(self.meets(pos, len)) + (after.nodes_merged() - self.nodes_merged()),
            one_if(self.meets(pos, len)),
        )
        &&& after.nodes_made() >= self.nodes_made()
        &&& !(self.splits(pos) && self.splits(pos + len)) || self.has_room(1)
            ==> after.nodes_made() == self.nodes_made()
        &&& after.nodes_merged() >= self.nodes_merged()
        &&& after.nodes_merged() - self.nodes_merged() <= after.nodes_freed() - self.nodes_freed()
        &&& after.levels() >= self.levels() ==> after.nearly_half_full()
        &&& self.filled() ==> after.filled()
        &&& self.half_full() && !self.meets(pos, len) && heads(cut(self.marks(), pos, len))
            >= heads(self.marks()) ==> after.nodes_merged() == self.nodes_merged()
    }
}

impl<T: Default> Default for PieceTable<T> {
    fn default() -> (table: Self)
        ensures
            table.wf(),
            table@ == Seq::<T>::empty(),
            table.counts() == Stats::zero(),
            !table.checks(),
            table.added() == 0,
            table.original_len() == 0,
            table.levels() == 0,
            table.nodes() == 0,
            table.fits(),
            table.half_full(),
            table.filled(),
    {
        let original: Vec<T> = Vec::new();
        let add: Vec<T> = Vec::new();
        let ghost empty = Seq::<T>::empty();
        let last_access = InvCell::new(
            None,
            Ghost(CacheRule { original: empty, add: empty, text: empty }),
        );
        let table = PieceTable {
            original,
            add,
            root: None,
            total_len: 0,
            stats: Stats::default(),
            debug_checks_enabled: false,
            last_access,
            pool: NodePool::new(),
        };
        assert(table@ =~= empty);
        table
    }
}

} // verus!
