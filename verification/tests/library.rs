use linehist::ancestors;
use linehist::collect;
use linehist::count_lines_bytes;
use linehist::evaluate;
use linehist::measure_content;
use linehist::walk;
use linehist::AncestryOrder;
use linehist::CommitData;
use linehist::EntryKind;
use linehist::Id;
use linehist::MetricCache;
use linehist::Node;
use linehist::Table;
use linehist::Tree;
use linehist::TreeItem;

fn id(b: u8) -> Id {
    Id { bytes: vec![b] }
}

fn leaf(name: &str, kind: EntryKind, oid: u8) -> TreeItem {
    TreeItem { name: name.as_bytes().to_vec(), node: Node::Leaf(kind, id(oid)) }
}

fn blob_table(blobs: Vec<(u8, Vec<u8>)>) -> Table<Vec<u8>> {
    Table { rows: blobs.into_iter().map(|(b, data)| (id(b), data)).collect() }
}

fn tree(oid: u8, entries: Vec<TreeItem>) -> Tree {
    Tree { id: id(oid), entries }
}

fn commit(oid: u8, root: u8, parents: Vec<u8>, seconds: i64) -> (Id, CommitData) {
    (
        id(oid),
        CommitData {
            root_tree: id(root),
            parents: parents.into_iter().map(id).collect(),
            seconds,
            offset_seconds: 0,
        },
    )
}

#[test]
fn line_counts_of_bytes() {
    assert_eq!(count_lines_bytes(&b"".to_vec()), 0);
    assert_eq!(count_lines_bytes(&b"a".to_vec()), 1);
    assert_eq!(count_lines_bytes(&b"a\n".to_vec()), 1);
    assert_eq!(count_lines_bytes(&b"\n".to_vec()), 1);
    assert_eq!(count_lines_bytes(&b"a\nb".to_vec()), 2);
    assert_eq!(count_lines_bytes(&b"a\nb\nc\n".to_vec()), 3);
}

#[test]
fn measure_rejects_binary_content() {
    assert_eq!(measure_content(&vec![0xFF, 0xFE, 0x00]), None);
    assert_eq!(measure_content(&b"two\nlines\n".to_vec()), Some(2));
    assert_eq!(measure_content(&b"".to_vec()), Some(0));
}

#[test]
fn walk_is_breadth_first() {
    // root holds a file and a directory; the directory holds a file.
    // Both root entries are yielded before the directory's content.
    let sub = tree(2, vec![leaf("inner", EntryKind::Blob, 11)]);
    let root = tree(
        1,
        vec![
            leaf("a", EntryKind::Blob, 10),
            TreeItem { name: b"d".to_vec(), node: Node::Dir(sub) },
        ],
    );
    let entries = walk(&root);
    assert_eq!(entries.len(), 3);
    assert_eq!(entries[0].path, vec![b"a".to_vec()]);
    assert!(matches!(entries[0].kind, EntryKind::Blob));
    assert_eq!(entries[0].id.bytes, vec![10]);
    assert_eq!(entries[1].path, vec![b"d".to_vec()]);
    assert!(matches!(entries[1].kind, EntryKind::Tree));
    assert_eq!(entries[1].id.bytes, vec![2]);
    assert_eq!(entries[2].path, vec![b"d".to_vec(), b"inner".to_vec()]);
    assert!(matches!(entries[2].kind, EntryKind::Blob));
    assert_eq!(entries[2].id.bytes, vec![11]);
}

#[test]
fn single_commit_text_blob_counts_three() {
    // One text blob of three lines in a single-commit snapshot.
    let root = tree(1, vec![leaf("f.txt", EntryKind::Blob, 10)]);
    let blobs = blob_table(vec![(10, b"a\nb\nc\n".to_vec())]);
    let mut cache = MetricCache::new();
    let total = evaluate(&root, &blobs, &mut cache).unwrap();
    assert_eq!(total, 3);
}

#[test]
fn binary_blob_contributes_zero_without_error() {
    // A binary blob beside a two-line text blob: the aggregate is 2.
    let root = tree(
        1,
        vec![leaf("img", EntryKind::Blob, 10), leaf("src", EntryKind::BlobExecutable, 11)],
    );
    let blobs = blob_table(vec![(10, vec![0xC0, 0x00, 0xFF]), (11, b"x\ny\n".to_vec())]);
    let mut cache = MetricCache::new();
    let total = evaluate(&root, &blobs, &mut cache).unwrap();
    assert_eq!(total, 2);
}

#[test]
fn unchanged_content_is_not_refetched() {
    // Two snapshots share one file; the second changes only the other
    // file. The shared content is fetched once over both evaluations.
    let root1 = tree(
        1,
        vec![leaf("keep", EntryKind::Blob, 10), leaf("edit", EntryKind::Blob, 11)],
    );
    let root2 = tree(
        2,
        vec![leaf("keep", EntryKind::Blob, 10), leaf("edit", EntryKind::Blob, 12)],
    );
    let blobs = blob_table(vec![
        (10, b"same\n".to_vec()),
        (11, b"one\n".to_vec()),
        (12, b"one\ntwo\n".to_vec()),
    ]);
    let mut cache = MetricCache::new();
    let t1 = evaluate(&root1, &blobs, &mut cache).unwrap();
    assert_eq!(t1, 2);
    assert_eq!(cache.fetch_count(), 2);
    let t2 = evaluate(&root2, &blobs, &mut cache).unwrap();
    assert_eq!(t2, 3);
    // Only the edited file's new content was fetched.
    assert_eq!(cache.fetch_count(), 3);
}

#[test]
fn evaluate_is_idempotent_on_a_warm_cache() {
    let root = tree(1, vec![leaf("f", EntryKind::Blob, 10)]);
    let blobs = blob_table(vec![(10, b"a\nb\n".to_vec())]);
    let mut cache = MetricCache::new();
    let first = evaluate(&root, &blobs, &mut cache).unwrap();
    let fetches = cache.fetch_count();
    let second = evaluate(&root, &blobs, &mut cache).unwrap();
    assert_eq!(first, second);
    assert_eq!(cache.fetch_count(), fetches);
}

#[test]
fn empty_tree_yields_zero() {
    let root = tree(1, vec![]);
    let blobs = blob_table(vec![]);
    let mut cache = MetricCache::new();
    assert_eq!(evaluate(&root, &blobs, &mut cache).unwrap(), 0);
}

#[test]
fn symlinks_and_submodules_contribute_nothing() {
    let root = tree(
        1,
        vec![
            leaf("link", EntryKind::Symlink, 10),
            leaf("sub", EntryKind::Commit, 11),
            leaf("f", EntryKind::Blob, 12),
        ],
    );
    // The symlink target content exists but must never be fetched.
    let blobs = blob_table(vec![(10, b"target\n".to_vec()), (12, b"a\n".to_vec())]);
    let mut cache = MetricCache::new();
    let total = evaluate(&root, &blobs, &mut cache).unwrap();
    assert_eq!(total, 1);
    assert_eq!(cache.fetch_count(), 1);
}

#[test]
fn missing_blob_is_an_access_error() {
    let root = tree(1, vec![leaf("f", EntryKind::Blob, 10)]);
    let blobs = blob_table(vec![]);
    let mut cache = MetricCache::new();
    let err = evaluate(&root, &blobs, &mut cache).unwrap_err();
    assert_eq!(err.missing.bytes, vec![10]);
}

fn diamond() -> Table<CommitData> {
    // d merges b and c; both descend from a.
    Table {
        rows: vec![
            commit(4, 1, vec![2, 3], 40),
            commit(2, 1, vec![1], 20),
            commit(3, 1, vec![1], 30),
            commit(1, 1, vec![], 10),
        ],
    }
}

#[test]
fn merge_ancestor_appears_exactly_once_topological() {
    let store = diamond();
    let order = ancestors(&store, &id(4), AncestryOrder::Topological).unwrap();
    assert_eq!(order.len(), 4);
    assert_eq!(order[0].bytes, vec![4]);
    let count = order.iter().filter(|c| c.bytes == vec![1]).count();
    assert_eq!(count, 1);
    // A commit never appears before one that has it as a parent.
    for i in 0..order.len() {
        for j in i..order.len() {
            let later = store.get(&order[j]).unwrap();
            assert!(!later.parents.iter().any(|p| p.bytes == order[i].bytes));
        }
    }
}

#[test]
fn merge_ancestor_appears_exactly_once_time_descending() {
    let store = diamond();
    let order = ancestors(&store, &id(4), AncestryOrder::TimeDescending).unwrap();
    assert_eq!(order.len(), 4);
    let count = order.iter().filter(|c| c.bytes == vec![1]).count();
    assert_eq!(count, 1);
    // Adjacent commit times never increase.
    for i in 0..order.len() - 1 {
        let a = store.get(&order[i]).unwrap().seconds;
        let b = store.get(&order[i + 1]).unwrap().seconds;
        assert!(a >= b);
    }
    assert_eq!(order[0].bytes, vec![4]);
}

#[test]
fn equal_times_break_ties_by_identity() {
    // Both parents of the merge carry the same commit time; the order
    // between them is fixed by identity bytes.
    let store = Table {
        rows: vec![
            commit(4, 1, vec![3, 2], 40),
            commit(2, 1, vec![1], 20),
            commit(3, 1, vec![1], 20),
            commit(1, 1, vec![], 10),
        ],
    };
    let order = ancestors(&store, &id(4), AncestryOrder::TimeDescending).unwrap();
    let bytes: Vec<u8> = order.iter().map(|c| c.bytes[0]).collect();
    assert_eq!(bytes, vec![4, 2, 3, 1]);
}

#[test]
fn missing_parent_is_an_access_error() {
    let store = Table { rows: vec![commit(2, 1, vec![9], 20)] };
    let err = ancestors(&store, &id(2), AncestryOrder::TimeDescending).unwrap_err();
    assert_eq!(err.missing.bytes, vec![9]);
}

#[test]
fn missing_start_is_an_access_error() {
    let store: Table<CommitData> = Table { rows: vec![] };
    let err = ancestors(&store, &id(7), AncestryOrder::Topological).unwrap_err();
    assert_eq!(err.missing.bytes, vec![7]);
}

fn lines_blob(n: usize) -> Vec<u8> {
    let mut v = Vec::new();
    for k in 0..n {
        v.extend_from_slice(format!("line {k}\n").as_bytes());
    }
    v
}

#[test]
fn five_commit_series_time_descending() {
    // Five commits, oldest to newest, with line counts
    // 10, 12, 12, 15 and 20.
    let counts = [10usize, 12, 12, 15, 20];
    let mut commits_rows = Vec::new();
    let mut trees_rows = Vec::new();
    let mut blobs_rows = Vec::new();
    for (k, n) in counts.iter().enumerate() {
        let c = k as u8 + 1;
        let t = k as u8 + 101;
        let b = k as u8 + 201;
        let parents = if k == 0 { vec![] } else { vec![c - 1] };
        commits_rows.push(commit(c, t, parents, 10 * (k as i64 + 1)));
        trees_rows.push((id(t), tree(t, vec![leaf("f", EntryKind::Blob, b)])));
        blobs_rows.push((id(b), lines_blob(*n)));
    }
    let commits = Table { rows: commits_rows };
    let trees = Table { rows: trees_rows };
    let blobs = Table { rows: blobs_rows };
    let series = collect(&commits, &trees, &blobs, &id(5), AncestryOrder::TimeDescending).unwrap();
    let metrics: Vec<u128> = series.entries.iter().map(|e| e.metric).collect();
    assert_eq!(metrics, vec![20, 15, 12, 12, 10]);
    let chronological: Vec<u128> = metrics.iter().rev().copied().collect();
    assert_eq!(chronological, vec![10, 12, 12, 15, 20]);
    assert_eq!(series.x_max, 4);
    assert_eq!(series.y_max, 20);
    for (k, e) in series.entries.iter().enumerate() {
        assert_eq!(e.ordinal, k);
    }
}

#[test]
fn five_commit_series_topological() {
    let counts = [10usize, 12, 12, 15, 20];
    let mut commits_rows = Vec::new();
    let mut trees_rows = Vec::new();
    let mut blobs_rows = Vec::new();
    for (k, n) in counts.iter().enumerate() {
        let c = k as u8 + 1;
        let t = k as u8 + 101;
        let b = k as u8 + 201;
        let parents = if k == 0 { vec![] } else { vec![c - 1] };
        commits_rows.push(commit(c, t, parents, 10 * (k as i64 + 1)));
        trees_rows.push((id(t), tree(t, vec![leaf("f", EntryKind::Blob, b)])));
        blobs_rows.push((id(b), lines_blob(*n)));
    }
    let commits = Table { rows: commits_rows };
    let trees = Table { rows: trees_rows };
    let blobs = Table { rows: blobs_rows };
    let series = collect(&commits, &trees, &blobs, &id(5), AncestryOrder::Topological).unwrap();
    let metrics: Vec<u128> = series.entries.iter().map(|e| e.metric).collect();
    assert_eq!(metrics, vec![20, 15, 12, 12, 10]);
    assert_eq!(series.ids[0].bytes, vec![5]);
    assert_eq!(series.x_max, 4);
    assert_eq!(series.y_max, 20);
}

#[test]
fn collect_shares_one_cache_across_commits() {
    // Two commits over the same single blob: one fetch serves both.
    let commits = Table { rows: vec![commit(2, 102, vec![1], 20), commit(1, 101, vec![], 10)] };
    let trees = Table {
        rows: vec![
            (id(101), tree(101, vec![leaf("f", EntryKind::Blob, 201)])),
            (id(102), tree(102, vec![leaf("f", EntryKind::Blob, 201)])),
        ],
    };
    let blobs = blob_table(vec![(201, b"a\nb\n".to_vec())]);
    let series = collect(&commits, &trees, &blobs, &id(2), AncestryOrder::TimeDescending).unwrap();
    assert_eq!(series.entries.len(), 2);
    assert_eq!(series.entries[0].metric, 2);
    assert_eq!(series.entries[1].metric, 2);
}

#[test]
fn collect_missing_tree_is_an_access_error() {
    let commits = Table { rows: vec![commit(1, 101, vec![], 10)] };
    let trees: Table<Tree> = Table { rows: vec![] };
    let blobs = blob_table(vec![]);
    let err = collect(&commits, &trees, &blobs, &id(1), AncestryOrder::Topological).unwrap_err();
    assert_eq!(err.missing.bytes, vec![101]);
}

#[test]
fn duplicated_entries_count_per_occurrence() {
    // The same content referenced twice in one snapshot is counted
    // for both entries but fetched once.
    let root = tree(
        1,
        vec![leaf("a", EntryKind::Blob, 10), leaf("b", EntryKind::Blob, 10)],
    );
    let blobs = blob_table(vec![(10, b"x\n".to_vec())]);
    let mut cache = MetricCache::new();
    let total = evaluate(&root, &blobs, &mut cache).unwrap();
    assert_eq!(total, 2);
    assert_eq!(cache.fetch_count(), 1);
}
