# pbtree

`pbtree` is a generic piece-table text buffer for editor workloads, written in Verus: what each
operation does is stated in its contract and proved.

A document is held as a list of pieces. Each piece names a run of elements in one of two buffers
that are only ever appended to: the elements the document began with, and those inserted since.
Edits change the pieces and leave the elements where they are.

- `PieceTable<T>` keeps its pieces in a balanced B+ tree whose nodes are pooled.
- `CompactPieceTable<T>` keeps them in a list, with an index whose nodes stand in one array.
- `TextBuffer<T>` is the interface that the two share.

```rust
use pbtree::PieceTable;

let mut table = PieceTable::new("hello".chars().collect());
table.insert(5, &[' ', 'w', 'o', 'r', 'l', 'd']);
table.delete(0, 1);

let text: String = table.iter().copied().collect();
assert_eq!(text, "ello world");
```

## The model

The model of a table is the sequence of its elements, `table@`. `insert` and `delete` are stated by
`inserted` and `removed` over that sequence; reading, iterating, cursors and searches are stated
over it too. `wf()` is the validity that every operation keeps; a valid table passes `validate`.

Beneath that, `piece.rs` models a list of pieces as a sequence of marks, one for each element,
which say where the element is held and whether a piece begins with it. The tree and the list are
both proved against that model.

The nodes of the tree have limits. No leaf has more than `LEAF_MAX_PIECES` pieces, and no other node
more than `INTERNAL_MAX_CHILDREN` children; a root that is no leaf has at least two, and all leaves
are equally deep. Insertions leave every node but the root at least half full if it was so before.
After a deletion the children of the root are half full but for one entry, unless the tree has lost
a level.

## Layout

| file | what it holds |
| --- | --- |
| `piece.rs`, `content.rs` | pieces, marks, and the elements they stand for |
| `list.rs` | edits of a list of pieces |
| `tree.rs`, `balance.rs`, `edit.rs`, `document.rs` | the B+ tree and its edits |
| `table.rs`, `walk.rs`, `iter.rs` | `PieceTable`, and reading it in order |
| `index.rs`, `compact.rs`, `compact_iter.rs` | `CompactPieceTable` |
| `buffer.rs` | `TextBuffer` |
| `defect.rs` | what `validate` finds and reports |
| `search.rs`, `bytes.rs` | searching for a pattern |
| `graphemes.rs`, `regexes.rs` | grapheme clusters and regular expressions |
| `laws.rs` | what holds of the library as a whole |

`PieceTable::new` leaves the checks after each edit off. `app/` holds a constructor that has them on
in builds with debug assertions.

Functions of three other crates are trusted rather than proved, each behind a small wrapper that
states what it is trusted for: `memchr_iter` (`bytes.rs`), the grapheme segmentation
(`graphemes.rs`) and the regular expressions (`regexes.rs`). So are `String::push` and the `==` of
`char`.
