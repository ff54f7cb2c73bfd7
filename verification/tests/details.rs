use pbtree::{
    concat_range, find_run, grapheme_spans, regex_grapheme_result, regex_result, CompactPieceTable,
    Defect, PieceTable, RegexError, SearchAlgorithm, Stats,
};

fn chars(s: &str) -> Vec<char> {
    s.chars().collect()
}

#[test]
fn documented_examples_hold() {
    let mut table = PieceTable::new(chars("hello"));
    table.insert(5, &[' ', 'w', 'o', 'r', 'l', 'd']);
    table.delete(0, 1);
    let text: String = table.iter().copied().collect();
    assert_eq!(text, "ello world");

    let mut table = CompactPieceTable::new(Vec::<char>::new());
    table.insert(0, &['a', 'b', 'c']);
    assert_eq!(table.get(1), Some(&'b'));
    assert!(table.validate().is_ok());
}

#[test]
fn reading_past_the_end_gives_nothing() {
    let t = PieceTable::new(chars("ab"));
    assert_eq!(t.get(2), None);
    assert_eq!(t.get(usize::MAX), None);
    assert_eq!(t.range(2, 2).next(), None);
    let c = CompactPieceTable::new(chars("ab"));
    assert_eq!(c.get(2), None);
    assert_eq!(c.range(1, 1).next(), None);
    let empty = PieceTable::new(Vec::<char>::new());
    assert_eq!(empty.get(0), None);
    assert_eq!(empty.iter().next(), None);
    assert_eq!(empty.cursor(0).get(), None);
}

#[test]
fn iterators_stay_at_the_end() {
    let t = PieceTable::new(chars("a"));
    let mut it = t.iter();
    assert_eq!(it.next(), Some(&'a'));
    assert_eq!(it.next(), None);
    assert_eq!(it.next(), None);
    let mut range = t.range(0, 1);
    assert_eq!(range.next(), Some(&'a'));
    assert_eq!(range.next(), None);
    assert_eq!(range.next(), None);
}

#[test]
fn default_tables_are_empty() {
    let t: PieceTable<u8> = PieceTable::default();
    assert!(t.is_empty());
    assert_eq!(t.height(), 0);
    assert_eq!(t.validate(), Ok(()));
    let c: CompactPieceTable<u8> = CompactPieceTable::default();
    assert_eq!(c.len(), 0);
    assert_eq!(c.height(), 0);
    assert_eq!(c.validate(), Ok(()));
}

#[test]
fn reserving_changes_no_content() {
    let mut t = PieceTable::new(chars("abc"));
    t.reserve_additional(100);
    t.reserve_for_edits(10, 20);
    t.insert(3, &['d']);
    let out: String = t.iter().copied().collect();
    assert_eq!(out, "abcd");
}

#[test]
fn estimates_are_cut_at_the_greatest_length() {
    let mut t = PieceTable::new(Vec::<()>::new());
    t.reserve_for_edits(usize::MAX, 2);
    t.insert(0, &[(), ()]);
    assert_eq!(t.len(), 2);
}

#[test]
fn edits_are_counted() {
    let mut t = PieceTable::new(chars("abcdef"));
    assert_eq!(t.stats(), Stats::default());
    t.insert(3, &['X']);
    let s = t.stats();
    assert_eq!((s.inserts, s.deletes, s.split_calls), (1, 0, 1));
    assert_eq!((s.merge_calls, s.coalesces), (0, 0));
    t.insert(4, &['Y']);
    assert_eq!(t.stats().split_calls, 1);
    assert_eq!(t.stats().inserts, 2);
    t.delete(3, 2);
    let s = t.stats();
    assert_eq!((s.deletes, s.coalesces, s.merge_calls), (1, 1, 1));
    t.delete(2, 2);
    assert_eq!(t.stats().split_calls, 3);
    t.reset_stats();
    assert_eq!(t.stats(), Stats::default());
}

#[test]
fn checks_start_disabled() {
    let mut t = PieceTable::new(chars("abc"));
    assert!(!t.debug_checks_enabled());
    t.set_debug_checks_enabled(true);
    t.insert(1, &['x']);
    t.delete(0, 1);
    assert!(t.debug_checks_enabled());
}

#[test]
fn detached_cursor_takes_hold_on_another_piece() {
    let mut t = PieceTable::new(chars("ab"));
    t.insert(2, &['1', '2']);
    let mut c = t.cursor(2);
    assert_eq!(c.next(), Some(&'2'));
    assert_eq!(c.next(), None);
    assert_eq!(c.prev(), None);
    assert_eq!(c.prev(), None);
    assert_eq!(c.prev(), Some(&'b'));
    assert_eq!(c.next(), Some(&'1'));
}

#[test]
fn cursor_made_at_the_end_takes_hold_when_stepped_forward() {
    let t = PieceTable::new(chars("abc"));
    let mut c = t.cursor(3);
    assert_eq!(c.get(), None);
    assert_eq!(c.prev(), None);
    assert_eq!(c.prev(), None);
    assert_eq!(c.next(), Some(&'c'));
    let mut far = t.cursor(100);
    assert_eq!(far.get(), None);
    assert_eq!(far.next(), None);
}

#[test]
fn searches_for_nothing_find_nothing() {
    let t = PieceTable::new(b"abc".to_vec());
    assert!(t.find_substring(b"").is_empty());
    assert!(t.find_substring_optimized(b"").is_empty());
    assert!(t.find_substring_with(b"", SearchAlgorithm::Kmp).is_empty());
    assert!(t.find_substring_with(b"abcd", SearchAlgorithm::BoyerMooreHorspool).is_empty());
    assert!(t.find_substring(b"abcd").is_empty());
    let c = CompactPieceTable::new(b"abc".to_vec());
    assert!(c.find_substring(b"").is_empty());
}

#[test]
fn overlapping_matches_are_all_found() {
    let t = PieceTable::new(chars("aaaa"));
    assert_eq!(t.find_substring(&['a', 'a']), vec![0, 1, 2]);
    let b = PieceTable::new(b"aaaaaaaaaa".to_vec());
    assert_eq!(b.find_substring_with(b"aaaaaaaa", SearchAlgorithm::Auto), vec![0, 1, 2]);
}

#[test]
fn single_bytes_are_found_in_all_pieces() {
    let mut t = PieceTable::new(b"xaxbx".to_vec());
    t.insert(2, b"xx");
    t.delete(0, 1);
    let all: Vec<u8> = t.iter().copied().collect();
    assert_eq!(all, b"axxxbx");
    assert_eq!(t.find_substring_optimized(b"x"), vec![1, 2, 3, 5]);
    assert_eq!(t.find_substring_with(b"x", SearchAlgorithm::Auto), vec![1, 2, 3, 5]);
    assert!(t.find_substring_optimized(b"q").is_empty());
}

#[test]
fn index_height_follows_the_number_of_pieces() {
    let mut c = CompactPieceTable::new(vec![0u8; 10_000]);
    assert_eq!(c.height(), 1);
    for i in 0..31 {
        c.insert(2 * i + 1, &[1]);
    }
    assert_eq!(c.height(), 1);
    c.insert(63, &[1]);
    assert_eq!(c.height(), 2);
    assert_eq!(c.validate(), Ok(()));
    c.delete(0, 64);
    assert_eq!(c.height(), 1);
}

#[test]
fn defects_are_reported_in_words() {
    let cases = [
        (Defect::LengthWithoutTree, "non-zero total_len with empty tree"),
        (
            Defect::LeafLength { computed: 10, stored: 9 },
            "leaf subtree_len mismatch: computed=10, stored=9",
        ),
        (Defect::NoChildren, "internal node has no children"),
        (
            Defect::InternalLength { computed: 0, stored: 123 },
            "internal subtree_len mismatch: computed=0, stored=123",
        ),
        (
            Defect::RootLength { computed: 7, total: 1_000_000 },
            "root length mismatch: computed=7, total=1000000",
        ),
        (Defect::EmptyPiece, "zero-length piece found"),
        (Defect::FileBounds, "file piece out of bounds"),
        (Defect::AddBounds, "add piece out of bounds"),
        (Defect::Coalescible, "adjacent coalescible pieces found"),
        (
            Defect::PieceSum { sum: 5, total: 6 },
            "piece sum mismatch: piece_sum=5, total_len=6",
        ),
        (
            Defect::IndexLength { index: 42, total: 24 },
            "index length mismatch: index=42, total=24",
        ),
        (Defect::MissingRoot, "missing index root on non-empty table"),
    ];
    for (defect, words) in cases {
        assert_eq!(defect.message(), words);
    }
    let max = Defect::PieceSum { sum: usize::MAX, total: 0 };
    assert_eq!(
        max.message(),
        format!("piece sum mismatch: piece_sum={}, total_len=0", usize::MAX)
    );
}

#[test]
fn grapheme_clusters_make_up_the_text() {
    let t = PieceTable::new(chars("e\u{301}x\r\ny"));
    assert_eq!(t.graphemes(), vec!["e\u{301}", "x", "\r\n", "y"]);
    assert_eq!(t.grapheme_count(), 4);
    assert_eq!(t.graphemes().concat(), "e\u{301}x\r\ny");
    assert_eq!(t.grapheme_range(0, 4), "e\u{301}x\r\ny");
    assert_eq!(t.grapheme_range(1, 3), "x\r\n");
    assert_eq!(t.grapheme_range(2, 2), "");
    assert_eq!(t.grapheme_at(2).as_deref(), Some("\r\n"));
    assert_eq!(t.grapheme_at(4), None);
}

#[test]
fn grapheme_ranges_can_be_tried() {
    let t = PieceTable::new(chars("e\u{301}x"));
    assert_eq!(t.try_grapheme_range(0, 1).as_deref(), Some("e\u{301}"));
    assert_eq!(t.try_grapheme_range(0, 3), None);
    assert_eq!(t.try_grapheme_range(2, 1), None);
}

#[test]
fn grapheme_search_goes_by_clusters() {
    let t = PieceTable::new(chars("e\u{301}ee\u{301}e"));
    assert_eq!(t.find_grapheme_substring("e"), vec![1, 3]);
    assert_eq!(t.find_grapheme_substring("e\u{301}e"), vec![0, 2]);
    assert!(t.find_grapheme_substring("").is_empty());
    assert!(t.find_grapheme_substring("eeeee").is_empty());
}

#[test]
fn strings_are_joined_and_found() {
    let parts: Vec<String> = ["a", "b", "a", "b", "a"].iter().map(|s| s.to_string()).collect();
    let run: Vec<String> = ["a", "b", "a"].iter().map(|s| s.to_string()).collect();
    assert_eq!(concat_range(&parts, 1, 4), "bab");
    assert_eq!(find_run(&parts, &run), vec![0, 2]);
    assert!(find_run(&parts, &Vec::new()).is_empty());
    assert!(find_run(&run, &parts).is_empty());
}

#[test]
fn regex_spans_are_byte_offsets() {
    let t = PieceTable::new(chars("é12 a345"));
    assert_eq!(t.find_regex(r"\d+"), Ok(vec![(2, 4), (6, 9)]));
    assert_eq!(t.find_regex("z"), Ok(vec![]));
    let b = PieceTable::new(b"a1b22".to_vec());
    assert_eq!(b.find_regex_bytes(r"\d+"), Ok(vec![(1, 2), (3, 5)]));
}

#[test]
fn regex_matches_are_given_in_clusters() {
    let t = PieceTable::new(chars("e\u{301}ab e\u{301}"));
    assert_eq!(t.find_regex_grapheme("ab"), Ok(vec![(1, 3)]));
    assert_eq!(t.find_regex_grapheme("e\u{301}"), Ok(vec![(0, 1), (4, 5)]));
    assert_eq!(t.find_regex_grapheme("\u{301}a"), Ok(vec![(0, 2)]));
    let empty = PieceTable::new(Vec::<char>::new());
    assert_eq!(empty.find_regex_grapheme("x*"), Ok(vec![(0, 0)]));
}

#[test]
fn spans_are_widened_to_clusters() {
    let bounds = vec![0, 3, 4, 9];
    let spans = vec![(0, 3), (1, 2), (3, 9), (2, 4), (9, 9)];
    assert_eq!(
        grapheme_spans(&bounds, &spans),
        vec![(0, 1), (0, 1), (1, 3), (0, 2), (3, 3)]
    );
}

#[test]
fn refused_patterns_are_errors() {
    let t = PieceTable::new(chars("abc"));
    assert!(matches!(
        t.find_regex("foo(bar"),
        Err(RegexError { source: regex::Error::Syntax(_) })
    ));
    assert!(matches!(
        t.find_regex_grapheme("["),
        Err(RegexError { source: regex::Error::Syntax(_) })
    ));
    assert!(matches!(
        t.find_regex(r"\w{1000}"),
        Err(RegexError { source: regex::Error::CompiledTooBig(_) })
    ));
    let b = PieceTable::new(b"abc".to_vec());
    assert!(b.find_regex_bytes("*").is_err());
}

#[test]
fn regex_results_are_passed_on() {
    assert_eq!(regex_result(Ok(vec![(1, 2)])), Ok(vec![(1, 2)]));
    let e = regex::Error::CompiledTooBig(5);
    assert_eq!(
        regex_result(Err(e.clone())),
        Err(RegexError { source: e })
    );
}

#[test]
fn regex_results_are_passed_on_in_clusters() {
    let bounds = vec![0, 3, 4];
    assert_eq!(regex_grapheme_result(Ok(vec![(1, 4), (4, 4)]), &bounds), Ok(vec![(0, 2), (2, 2)]));
    let e = regex::Error::CompiledTooBig(5);
    assert_eq!(
        regex_grapheme_result(Err(e.clone()), &bounds),
        Err(RegexError { source: e })
    );
}
