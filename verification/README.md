# btree

A B+ tree whose nodes live in numbered 4 KB pages, with its operations
proved correct in Verus.

The tree maps keys to values. Internal nodes hold separator keys and the
page ids of their children; leaves hold the entries and are linked left to
right, so range scans walk the leaf level only. Inserts split full children
on the way down; deletes give each child on the way down a key to spare,
borrowing from a sibling or merging with one.

## What is proved

- `BTree::get`, `insert`, `delete` behave as a map: a lookup gives the
  value of the key or `KeyNotFound`, an insertion adds or replaces one
  entry, a deletion removes one entry or fails with `KeyNotFound` and
  leaves the entries as they were. The tree stays well formed throughout:
  separators order the keys, every page is used once, the leaves are
  chained in key order, and the last leaf links to page 0, which means no
  next leaf (page 0 can only be the first leaf).
- Insertions and deletions keep the tree balanced for its minimum degree
  `t`: every node holds at most `2t - 1` keys, every node but the root at
  least `t - 1`, and all leaves lie at the same depth. A new tree has height
  0; an insertion adds at most one level, a deletion none.
- The steps below the operations state their effect on the pages exactly:
  which entries, children and separators a split, a borrow or a merge
  moves, and which of them the rebalancing of a child picks.
- Every page that `open`, `insert` or `delete` changes or allocates is
  listed as dirty, and no earlier mark is lost, so writing the dirty pages
  out after each operation keeps the stored file in step with the tree.
- An insertion uses at most `height + 3` new page ids; on a balanced tree
  it adds a level exactly when the root was full.
- `BTree::range` and `Cursor` read exactly the entries between two bounds,
  in increasing key order; `scan_all` reads all of them.
- `BTree::open` accepts the pages of a pager exactly when they form a
  well-formed tree, and then holds the entries those pages hold.
- The page file layout (header, page offsets, page frames) round-trips.

## Layout

- `src/` — the verified library:
  - `key.rs` — the key and value traits and their instances;
  - `node.rs`, `pager.rs` — nodes, the page store, the file layout;
  - `tree.rs` — the tree's operations;
  - `cursor.rs`, `scan.rs`, `order.rs` — range scans;
  - `check.rs` — checking pages read back from storage;
  - `shape.rs`, `parts.rs`, `split.rs`, `rebalance.rs`, `descend.rs` —
    the model of a tree over pages and the facts the operations rest on;
  - `balance.rs` — key counts per node and the depth of the leaves;
  - `laws.rs` — properties of the operations taken together.
- `app/` — the `btree-cli` command line: it keeps the pages in a file,
  encoding nodes with `bincode`.
- `tests/` — tests of the library.
