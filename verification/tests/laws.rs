use pbtree::{
    BNode, CompactPieceTable, PieceTable, SearchAlgorithm, Stats, TextBuffer,
    INTERNAL_MAX_CHILDREN, INTERNAL_MIN_CHILDREN, LEAF_MAX_PIECES, LEAF_MIN_PIECES,
};

fn chars(s: &str) -> Vec<char> {
    s.chars().collect()
}

fn text(table: &PieceTable<char>) -> String {
    table.iter().copied().collect()
}

fn compact_text(table: &CompactPieceTable<char>) -> String {
    table.iter().copied().collect()
}

fn depth(node: &BNode) -> usize {
    match node {
        BNode::Leaf { .. } => 1,
        BNode::Internal { children, .. } => {
            let first = depth(&children[0]);
            for child in children {
                assert_eq!(depth(child), first);
            }
            first + 1
        }
    }
}

fn entries(node: &BNode) -> usize {
    match node {
        BNode::Leaf { pieces, .. } => pieces.len(),
        BNode::Internal { children, .. } => children.len(),
    }
}

fn in_bounds(node: &BNode) -> bool {
    match node {
        BNode::Leaf { pieces, .. } => pieces.len() <= LEAF_MAX_PIECES,
        BNode::Internal { children, .. } => {
            children.len() <= INTERNAL_MAX_CHILDREN && children.iter().all(|c| in_bounds(c))
        }
    }
}

#[test]
fn insertion_puts_the_elements_in() {
    let mut t = PieceTable::new(chars("abcd"));
    t.insert(2, &['X', 'Y']);
    assert_eq!(text(&t), "abXYcd");
    t.insert(0, &['<']);
    t.insert(t.len(), &['>']);
    assert_eq!(text(&t), "<abXYcd>");
    assert_eq!(t.len(), 8);
}

#[test]
fn insertion_keeps_the_other_elements() {
    let before = chars("abcdef");
    let mut t = PieceTable::new(before.clone());
    t.insert(4, &['1', '2', '3']);
    for i in 0..before.len() {
        let at = if i < 4 { i } else { i + 3 };
        assert_eq!(t.get(at), Some(&before[i]));
    }
}

#[test]
fn deletion_undoes_insertion() {
    let mut t = PieceTable::new(chars("hello"));
    t.insert(3, &['x', 'y', 'z']);
    t.delete(3, 3);
    assert_eq!(text(&t), "hello");
    assert!(t.validate().is_ok());
    assert_eq!(t.stats().coalesces, 1);
}

#[test]
fn insertion_undoes_deletion() {
    let mut t = PieceTable::new(chars("hello world"));
    t.delete(2, 5);
    assert_eq!(text(&t), "heorld");
    t.insert(2, &['l', 'l', 'o', ' ', 'w']);
    assert_eq!(text(&t), "hello world");
}

#[test]
fn deletion_keeps_the_other_elements() {
    let before = chars("abcdefgh");
    let mut t = PieceTable::new(before.clone());
    t.delete(2, 3);
    assert_eq!(t.len(), 5);
    assert_eq!(t.get(1), Some(&before[1]));
    assert_eq!(t.get(2), Some(&before[5]));
    assert_eq!(t.get(4), Some(&before[7]));
}

#[test]
fn deletions_at_one_position_add_up() {
    let mut a = PieceTable::new(chars("abcdefgh"));
    a.delete(1, 2);
    a.delete(1, 3);
    let mut b = PieceTable::new(chars("abcdefgh"));
    b.delete(1, 5);
    assert_eq!(text(&a), text(&b));
    assert_eq!(text(&a), "agh");
}

#[test]
fn empty_edits_change_nothing() {
    let mut t = PieceTable::new(chars("abc"));
    let stats = t.stats();
    t.insert(1, &[]);
    t.delete(1, 0);
    t.delete(3, 0);
    assert_eq!(text(&t), "abc");
    assert_eq!(t.stats(), stats);

    let mut c = CompactPieceTable::new(chars("abc"));
    c.insert(3, &[]);
    c.delete(0, 0);
    assert_eq!(compact_text(&c), "abc");
}

#[test]
fn both_tables_insert_and_delete_alike() {
    let mut a = PieceTable::new(chars("shared"));
    let mut b = CompactPieceTable::new(chars("shared"));
    a.insert(3, &['-', '+']);
    b.insert(3, &['-', '+']);
    assert_eq!(text(&a), compact_text(&b));
    a.delete(1, 4);
    b.delete(1, 4);
    assert_eq!(text(&a), "sred");
    assert_eq!(text(&a), compact_text(&b));
}

#[test]
fn iteration_gives_what_is_read_one_by_one() {
    let mut t = PieceTable::new(chars("abcdef"));
    t.insert(3, &['1', '2']);
    t.delete(1, 1);
    let mut c = CompactPieceTable::new(chars("abcdef"));
    c.insert(3, &['1', '2']);
    c.delete(1, 1);
    for (i, x) in t.iter().enumerate() {
        assert_eq!(t.get(i), Some(x));
        assert_eq!(c.get(i), Some(x));
    }
    assert_eq!(t.iter().count(), 7);
    assert_eq!(c.iter().count(), 7);
}

#[test]
fn ranges_are_parts_of_the_whole() {
    let mut t = PieceTable::new(chars("abcdef"));
    t.insert(2, &['1', '2', '3']);
    let mut c = CompactPieceTable::new(chars("abcdef"));
    c.insert(2, &['1', '2', '3']);
    let whole: Vec<char> = t.iter().copied().collect();
    for start in 0..=whole.len() {
        for end in start..=whole.len() {
            let part: Vec<char> = t.range(start, end).copied().collect();
            assert_eq!(part, whole[start..end]);
            let part: Vec<char> = c.range(start, end).copied().collect();
            assert_eq!(part, whole[start..end]);
        }
    }
}

#[test]
fn all_ways_to_search_agree() {
    let mut t = PieceTable::new(b"abababcabababab".to_vec());
    t.insert(6, b"abab");
    let bytes: Vec<u8> = t.iter().copied().collect();
    let c = CompactPieceTable::new(bytes.clone());
    let patterns: [&[u8]; 6] = [b"a", b"ab", b"aba", b"abababab", b"ababcababab", b"x"];
    for p in patterns {
        let mut expected = Vec::new();
        for i in 0..bytes.len() {
            if bytes[i..].starts_with(p) {
                expected.push(i);
            }
        }
        assert_eq!(t.find_substring(p), expected);
        assert_eq!(t.find_substring_optimized(p), expected);
        assert_eq!(t.find_substring_with(p, SearchAlgorithm::Kmp), expected);
        assert_eq!(t.find_substring_with(p, SearchAlgorithm::BoyerMooreHorspool), expected);
        assert_eq!(t.find_substring_with(p, SearchAlgorithm::Auto), expected);
        assert_eq!(c.find_substring(p), expected);
    }
}

#[test]
fn cursor_steps_through_the_whole_document() {
    let mut t = PieceTable::new(chars("abc"));
    t.insert(1, &['1', '2']);
    t.insert(4, &['3']);
    let whole: Vec<char> = t.iter().copied().collect();
    let mut c = t.cursor(0);
    assert_eq!(c.get(), Some(&whole[0]));
    for x in &whole[1..] {
        assert_eq!(c.next(), Some(x));
        assert_eq!(c.get(), Some(x));
    }
    for x in whole[..whole.len() - 1].iter().rev() {
        assert_eq!(c.prev(), Some(x));
    }
    assert_eq!(c.prev(), None);
    assert_eq!(c.get(), Some(&whole[0]));
}

#[test]
fn cursor_returns_to_where_it_was() {
    let mut t = PieceTable::new(chars("abcd"));
    t.insert(2, &['X']);
    let mut c = t.cursor(1);
    assert_eq!(c.next(), Some(&'X'));
    assert_eq!(c.prev(), Some(&'b'));
}

#[test]
fn cursor_stays_at_the_end() {
    let t = PieceTable::new(chars("ab"));
    let mut c = t.cursor(1);
    assert_eq!(c.get(), Some(&'b'));
    assert_eq!(c.next(), None);
    assert_eq!(c.get(), None);
    assert_eq!(c.next(), None);
    assert_eq!(c.get(), None);
}

#[test]
fn all_leaves_are_equally_deep() {
    let mut t = PieceTable::new(vec![0u32; 100]);
    for i in 0..3_000usize {
        t.insert((i * 7919) % (t.len() + 1), &[i as u32]);
    }
    let root = t.root().unwrap();
    assert_eq!(depth(root), t.height());
    assert!(t.height() >= 3);
    for i in 0..2_500usize {
        t.delete((i * 104_729) % t.len(), 1);
        if i % 100 == 0 {
            assert_eq!(depth(t.root().unwrap()), t.height());
        }
    }
    let rest = t.len();
    t.delete(0, rest);
    assert_eq!(t.height(), 0);
    assert!(t.root().is_none());
    assert!(t.is_empty());
}

#[test]
fn valid_tables_pass_their_checks() {
    fn edit<B: TextBuffer<u8>>(b: &mut B) {
        for i in 0..300usize {
            b.insert((i * 31) % (b.len() + 1), &[i as u8, 1, 2]);
            if i % 2 == 0 {
                let pos = (i * 17) % b.len();
                let len = (b.len() - pos).min(4);
                b.delete(pos, len);
            }
            assert_eq!(b.validate(), Ok(()));
        }
        assert!(!b.is_empty());
    }

    let mut a = PieceTable::new(vec![7u8; 50]);
    a.set_debug_checks_enabled(true);
    let mut b = CompactPieceTable::new(vec![7u8; 50]);
    edit(&mut a);
    edit(&mut b);
    let x: Vec<u8> = a.iter().copied().collect();
    let y: Vec<u8> = b.iter().copied().collect();
    assert_eq!(x, y);
}

#[test]
fn insertions_side_by_side_add_up() {
    for pos in 0..=4usize {
        let mut twice = PieceTable::new(chars("abcd"));
        twice.insert(pos, &['x', 'y']);
        twice.insert(pos + 2, &['z']);
        let mut once = PieceTable::new(chars("abcd"));
        once.insert(pos, &['x', 'y', 'z']);
        assert_eq!(text(&twice), text(&once));
    }
    let mut t = PieceTable::new(chars("abcd"));
    t.insert(2, &['x', 'y']);
    t.insert(4, &['z']);
    assert_eq!(text(&t), "abxyzcd");
}

#[test]
fn new_documents_have_height_one() {
    assert_eq!(PieceTable::new(vec![1u8]).height(), 1);
    assert_eq!(PieceTable::new(vec![1u8; 5_000]).height(), 1);
    assert_eq!(PieceTable::new(Vec::<u8>::new()).height(), 0);
    assert_eq!(CompactPieceTable::new(vec![1u8; 5_000]).height(), 1);
    assert_eq!(CompactPieceTable::new(Vec::<u8>::new()).height(), 0);
}

#[test]
fn counters_count_edits() {
    let mut t = PieceTable::new(vec![0u32; 64]);
    let mut inserts = 0usize;
    let mut deletes = 0usize;
    for i in 0..1_500usize {
        let pos = (i * 7919) % (t.len() + 1);
        let data = vec![i as u32; i % 3];
        if !data.is_empty() {
            inserts += 1;
        }
        t.insert(pos, &data);
        if i % 2 == 1 {
            let from = (i * 104_729) % (t.len() + 1);
            let len = (i % 4).min(t.len() - from);
            if len > 0 {
                deletes += 1;
            }
            t.delete(from, len);
        }
        let seen = t.stats();
        assert_eq!((seen.inserts, seen.deletes), (inserts, deletes));
        assert!(seen.merge_calls >= seen.coalesces);
        assert_eq!(t.get(i % (t.len() + 1)).is_some(), i % (t.len() + 1) < t.len());
        assert_eq!(t.iter().count(), t.len());
        assert_eq!(t.stats(), seen);
    }
    t.reset_stats();
    assert_eq!(t.stats(), Stats::default());
}

#[test]
fn insertions_leave_no_node_too_full() {
    let mut t = PieceTable::new(vec![0u32; 100]);
    for i in 0..4_000usize {
        t.insert((i * 7919) % (t.len() + 1), &[i as u32]);
        assert!(in_bounds(t.root().unwrap()));
    }
    assert!(t.height() >= 3);
    for i in 0..2_000usize {
        let from = (i * 104_729) % (t.len() + 1);
        let len = (i % 5).min(t.len() - from);
        t.delete(from, len);
        if let Some(root) = t.root() {
            assert!(in_bounds(root));
        }
    }
}

#[test]
fn insertions_leave_nodes_half_full() {
    fn half_full(node: &BNode, is_root: bool) -> bool {
        match node {
            BNode::Leaf { pieces, .. } => is_root || pieces.len() >= LEAF_MIN_PIECES,
            BNode::Internal { children, .. } => {
                (is_root || children.len() >= INTERNAL_MIN_CHILDREN)
                    && children.iter().all(|c| half_full(c, false))
            }
        }
    }

    let mut t = PieceTable::new(vec![0u32; 100]);
    for i in 0..4_000usize {
        t.insert((i * 7919) % (t.len() + 1), &[i as u32]);
        assert!(half_full(t.root().unwrap(), true));
    }
}

#[test]
fn deletions_split_a_root_that_is_too_full() {
    let mut t = PieceTable::new(vec![0u8; 4_000]);
    for i in 0..LEAF_MAX_PIECES - 1 {
        t.delete(10 * (i + 1), 1);
        assert_eq!(entries(t.root().unwrap()), i + 2);
        assert_eq!(t.height(), 1);
    }
    let before = t.stats();
    t.delete(10 * LEAF_MAX_PIECES, 1);
    assert_eq!(t.height(), 2);
    assert_eq!(entries(t.root().unwrap()), 2);
    assert!(in_bounds(t.root().unwrap()));
    assert_eq!(t.stats().split_calls, before.split_calls + 4);
    assert_eq!(t.stats().deletes, before.deletes + 1);
    assert!(t.validate().is_ok());
    for i in LEAF_MAX_PIECES..300 {
        t.delete(10 * (i + 1), 1);
        assert!(in_bounds(t.root().unwrap()));
    }
    assert_eq!(t.len(), 4_000 - 300);
}

#[test]
fn typing_splits_nothing() {
    let mut t = PieceTable::new(Vec::<char>::new());
    for (i, c) in "seven letters".chars().enumerate() {
        t.insert(i, &[c]);
    }
    assert_eq!(text(&t), "seven letters");
    assert_eq!(t.stats().split_calls, 0);
    assert_eq!(t.stats().inserts, 13);
    assert_eq!(entries(t.root().unwrap()), 1);

    let mut t = PieceTable::new(vec!['a'; 100]);
    for i in 0..500usize {
        t.insert((i * 7919) % (t.len() + 1), &['b']);
    }
    t.insert(250, &['c']);
    let before = t.stats();
    for i in 0..50usize {
        t.insert(251 + 2 * i, &['d', 'e']);
    }
    assert_eq!(t.stats().split_calls, before.split_calls);
    assert_eq!(t.stats().inserts, before.inserts + 50);
    assert!(t.height() >= 2);
}

#[test]
fn only_trees_of_one_level_have_a_leaf_as_root() {
    let mut t = PieceTable::new(vec![0u32; 100]);
    for i in 0..2_000usize {
        t.insert((i * 7919) % (t.len() + 1), &[i as u32]);
    }
    while t.len() > 0 {
        let root = t.root().unwrap();
        match root {
            BNode::Leaf { .. } => assert_eq!(t.height(), 1),
            BNode::Internal { children, .. } => assert!(children.len() > 1),
        }
        let len = t.len().min(13);
        t.delete((t.len() - len) / 2, len);
    }
    assert_eq!(t.height(), 0);
}

/// An element whose clone is another, and whose `==` is neither symmetric nor transitive.
#[derive(Debug)]
struct Near(i32);

impl Clone for Near {
    fn clone(&self) -> Self {
        Near(self.0 / 2)
    }
}

impl PartialEq for Near {
    fn eq(&self, other: &Self) -> bool {
        other.0 - self.0 <= 1
    }
}

#[test]
fn tables_are_interchangeable_for_any_elements() {
    let start = |n: i32| (0..n).map(|i| Near(i % 7)).collect::<Vec<_>>();
    let mut a = PieceTable::new(start(40));
    let mut b = CompactPieceTable::new(start(40));
    for i in 0..400usize {
        let data = [Near(i as i32 % 11), Near(i as i32 % 5)];
        let pos = (i * 7919) % (a.len() + 1);
        a.insert(pos, &data);
        b.insert(pos, &data);
        if i % 3 == 0 {
            let from = (i * 31) % a.len();
            let len = (a.len() - from).min(3);
            a.delete(from, len);
            b.delete(from, len);
        }
        assert_eq!(a.len(), b.len());
        let x: Vec<i32> = a.iter().map(|e| e.0).collect();
        let y: Vec<i32> = b.iter().map(|e| e.0).collect();
        assert_eq!(x, y);
        let at = (i * 13) % (a.len() + 2);
        assert_eq!(a.get(at).map(|e| e.0), b.get(at).map(|e| e.0));
        assert_eq!(b.get(at).map(|e| e.0), b.iter().nth(at).map(|e| e.0));
        for pattern in [&[Near(1), Near(2), Near(1)][..], &[Near(0)][..], &[][..]] {
            assert_eq!(a.find_substring(pattern), b.find_substring(pattern));
        }
    }
}
