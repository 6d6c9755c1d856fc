//! Tree snapshots and the breadth-first tree walker.

use vstd::prelude::*;

use crate::ids::EntryKind;
use crate::ids::Id;

verus! {

/// A directory snapshot: its own content identity and its named
/// entries, in directory order.
#[derive(Debug)]
pub struct Tree {
    pub id: Id,
    pub entries: Vec<TreeItem>,
}

/// One named entry of a directory snapshot. Names are byte strings,
/// as the underlying object format stores them.
#[derive(Debug)]
pub struct TreeItem {
    pub name: Vec<u8>,
    pub node: Node,
}

/// What a directory entry points at: either a nested sub-directory
/// snapshot, or a leaf object (file blob, symlink or submodule
/// pointer) identified by content identity.
#[derive(Debug)]
pub enum Node {
    Dir(Tree),
    Leaf(EntryKind, Id),
}

/// A flat record produced by the walker: the path components from the
/// root, the entry kind, and the content identity of the object.
#[derive(Debug)]
pub struct TreeEntry {
    pub path: Vec<Vec<u8>>,
    pub kind: EntryKind,
    pub id: Id,
}

/// The mathematical value of a path: its component byte sequences.
pub open spec fn path_view(p: Seq<Vec<u8>>) -> Seq<Seq<u8>> {
    p.map_values(|c: Vec<u8>| c@)
}

/// The mathematical value of a flat record.
#[verifier::ext_equal]
pub struct EntryView {
    pub path: Seq<Seq<u8>>,
    pub kind: EntryKind,
    pub id: Seq<u8>,
}

impl TreeEntry {
    /// The mathematical value of this record.
    pub open spec fn view(&self) -> EntryView {
        EntryView { path: path_view(self.path@), kind: self.kind, id: self.id@ }
    }
}

/// The mathematical values of a record sequence.
pub open spec fn entry_views(s: Seq<TreeEntry>) -> Seq<EntryView> {
    s.map_values(|e: TreeEntry| e@)
}

/// Structural size of a sequence of entries.
pub open spec fn items_size(items: Seq<TreeItem>) -> nat
    decreases items,
{
    if items.len() == 0 {
        0
    } else {
        items_size(items.drop_last()) + item_size(items.last())
    }
}

/// Structural size of one entry: itself plus everything below it.
pub open spec fn item_size(item: TreeItem) -> nat
    decreases item,
{
    match item.node {
        Node::Dir(sub) => 1 + items_size(sub.entries@),
        Node::Leaf(_, _) => 1,
    }
}

/// Structural size of a tree, counting every entry at every depth.
pub open spec fn tree_size(t: Tree) -> nat {
    items_size(t.entries@)
}

/// The record the walker yields for one directory entry seen under
/// `path`: sub-directories are yielded (and later descended into),
/// leaves are yielded only.
pub open spec fn record_of(path: Seq<Seq<u8>>, item: TreeItem) -> EntryView {
    match item.node {
        Node::Dir(sub) => EntryView { path: path.push(item.name@), kind: EntryKind::Tree, id: sub.id@ },
        Node::Leaf(k, id) => EntryView { path: path.push(item.name@), kind: k, id: id@ },
    }
}

/// All records one directory contributes, in directory order.
pub open spec fn records_of(path: Seq<Seq<u8>>, items: Seq<TreeItem>) -> Seq<EntryView> {
    Seq::new(items.len(), |i: int| record_of(path, items[i]))
}

/// The sub-directories one directory adds to the walk queue, in
/// directory order, each under its extended path.
pub open spec fn child_queue(path: Seq<Seq<u8>>, items: Seq<TreeItem>) -> Seq<
    (Seq<Seq<u8>>, Tree),
>
    decreases items,
{
    if items.len() == 0 {
        Seq::empty()
    } else {
        child_queue(path, items.drop_last()) + (match items.last().node {
            Node::Dir(sub) => seq![(path.push(items.last().name@), sub)],
            Node::Leaf(_, _) => Seq::empty(),
        })
    }
}

/// Structural size of a whole walk queue.
pub open spec fn queue_size(q: Seq<(Seq<Seq<u8>>, Tree)>) -> nat
    decreases q,
{
    if q.len() == 0 {
        0
    } else {
        queue_size(q.drop_last()) + 1 + tree_size(q.last().1)
    }
}

/// Queue size is additive over concatenation.
pub proof fn lemma_queue_size_concat(a: Seq<(Seq<Seq<u8>>, Tree)>, b: Seq<(Seq<Seq<u8>>, Tree)>)
    ensures
        queue_size(a + b) == queue_size(a) + queue_size(b),
    decreases b.len(),
{
    if b.len() == 0 {
        assert(a + b =~= a);
    } else {
        assert((a + b).drop_last() =~= a + b.drop_last());
        assert((a + b).last() == b.last());
        lemma_queue_size_concat(a, b.drop_last());
    }
}

/// The sub-directories of a directory are no larger than the
/// directory's own entries.
pub proof fn lemma_child_queue_size(path: Seq<Seq<u8>>, items: Seq<TreeItem>)
    ensures
        queue_size(child_queue(path, items)) <= items_size(items),
    decreases items.len(),
{
    if items.len() > 0 {
        let dl = items.drop_last();
        lemma_child_queue_size(path, dl);
        assert(items_size(items) == items_size(dl) + item_size(items.last()));
        match items.last().node {
            Node::Dir(sub) => {
                let single = seq![(path.push(items.last().name@), sub)];
                assert(child_queue(path, items) == child_queue(path, dl) + single);
                lemma_queue_size_concat(child_queue(path, dl), single);
                assert(queue_size(single) == 1 + tree_size(sub)) by {
                    assert(queue_size(Seq::<(Seq<Seq<u8>>, Tree)>::empty()) == 0);
                    assert(single.drop_last() =~= Seq::<(Seq<Seq<u8>>, Tree)>::empty());
                    assert(single.last() == (path.push(items.last().name@), sub));
                }
                assert(item_size(items.last()) == 1 + items_size(sub.entries@));
                assert(tree_size(sub) == items_size(sub.entries@));
            },
            Node::Leaf(_, _) => {
                let single = Seq::<(Seq<Seq<u8>>, Tree)>::empty();
                assert(child_queue(path, items) == child_queue(path, dl) + single);
                assert(queue_size(single) == 0);
                lemma_queue_size_concat(child_queue(path, dl), single);
                assert(item_size(items.last()) == 1);
            },
        }
    } else {
        assert(queue_size(Seq::<(Seq<Seq<u8>>, Tree)>::empty()) == 0);
    }
}

/// Dequeuing the front of a walk queue and enqueuing that directory's
/// sub-directories strictly shrinks the queue's structural size.
pub proof fn lemma_step_shrinks(q: Seq<(Seq<Seq<u8>>, Tree)>)
    requires
        q.len() > 0,
    ensures
        queue_size(q.drop_first() + child_queue(q[0].0, q[0].1.entries@)) < queue_size(q),
{
    assert(q =~= seq![q[0]] + q.drop_first());
    lemma_queue_size_concat(seq![q[0]], q.drop_first());
    assert(queue_size(seq![q[0]]) == 1 + tree_size(q[0].1)) by {
        assert(queue_size(Seq::<(Seq<Seq<u8>>, Tree)>::empty()) == 0);
        assert(seq![q[0]].drop_last() =~= Seq::<(Seq<Seq<u8>>, Tree)>::empty());
    }
    lemma_queue_size_concat(q.drop_first(), child_queue(q[0].0, q[0].1.entries@));
    lemma_child_queue_size(q[0].0, q[0].1.entries@);
}

/// The sequence of records a breadth-first walk of the queued
/// directories produces: every queued directory's own entries first,
/// in queue order, then the entries of all their sub-directories.
pub open spec fn bfs(q: Seq<(Seq<Seq<u8>>, Tree)>) -> Seq<EntryView>
    decreases queue_size(q),
    via bfs_decreases
{
    if q.len() == 0 {
        Seq::empty()
    } else {
        records_of(q[0].0, q[0].1.entries@) + bfs(
            q.drop_first() + child_queue(q[0].0, q[0].1.entries@),
        )
    }
}

#[via_fn]
proof fn bfs_decreases(q: Seq<(Seq<Seq<u8>>, Tree)>) {
    if q.len() > 0 {
        lemma_step_shrinks(q);
    }
}

/// The full walk of one tree: a breadth-first walk started at the
/// root, whose own entries carry single-component paths.
pub open spec fn tree_walk(t: Tree) -> Seq<EntryView> {
    bfs(seq![(Seq::<Seq<u8>>::empty(), t)])
}

/// Copy a byte string.
fn copy_bytes(b: &Vec<u8>) -> (r: Vec<u8>)
    ensures
        r@ == b@,
{
    let mut r: Vec<u8> = Vec::new();
    let n = b.len();
    let mut i: usize = 0;
    while i < n
        invariant
            n == b@.len(),
            i <= n,
            r@ == b@.subrange(0, i as int),
        decreases n - i,
    {
        r.push(b[i]);
        assert(r@ =~= b@.subrange(0, i as int + 1));
        i += 1;
    }
    assert(r@ =~= b@);
    r
}

/// Copy a path and extend it by one component.
fn extend_path(p: &Vec<Vec<u8>>, name: &Vec<u8>) -> (r: Vec<Vec<u8>>)
    ensures
        path_view(r@) =~~= path_view(p@).push(name@),
{
    let mut r: Vec<Vec<u8>> = Vec::new();
    let n = p.len();
    let mut i: usize = 0;
    while i < n
        invariant
            n == p@.len(),
            i <= n,
            r@.len() == i,
            forall|k: int| 0 <= k < i ==> r@[k]@ == p@[k]@,
        decreases n - i,
    {
        let c = copy_bytes(&p[i]);
        r.push(c);
        i += 1;
    }
    let c = copy_bytes(name);
    r.push(c);
    assert(r@[n as int]@ == name@);
    assert(path_view(r@) =~~= path_view(p@).push(name@));
    r
}

/// The mathematical value of a queued walk item.
pub open spec fn qitem_view(it: (Vec<Vec<u8>>, &Tree)) -> (Seq<Seq<u8>>, Tree) {
    (path_view(it.0@), *it.1)
}

/// The mathematical value of a walk queue.
pub open spec fn qview(q: Seq<(Vec<Vec<u8>>, &Tree)>) -> Seq<(Seq<Seq<u8>>, Tree)> {
    q.map_values(|it: (Vec<Vec<u8>>, &Tree)| qitem_view(it))
}

/// Walk a tree snapshot breadth first and yield one record per entry
/// at every depth: a directory's own entries are all yielded before
/// any of its sub-directories is descended into. Sub-directory
/// entries are yielded (as `Tree` records) and then descended into;
/// leaf entries are yielded only.
pub fn walk(root: &Tree) -> (out: Vec<TreeEntry>)
    ensures
        entry_views(out@) == tree_walk(*root),
{
    let mut out: Vec<TreeEntry> = Vec::new();
    let mut queue: Vec<(Vec<Vec<u8>>, &Tree)> = Vec::new();
    let empty_path: Vec<Vec<u8>> = Vec::new();
    queue.push((empty_path, root));
    proof {
        assert(qview(queue@) =~~= seq![(Seq::<Seq<u8>>::empty(), *root)]);
        assert(entry_views(out@) =~~= Seq::<EntryView>::empty());
    }
    while queue.len() > 0
        invariant
            entry_views(out@) + bfs(qview(queue@)) == tree_walk(*root),
        decreases queue_size(qview(queue@)),
    {
        let ghost q0 = qview(queue@);
        let (path, t) = queue.remove(0);
        proof {
            assert(qview(queue@) =~~= q0.drop_first());
        }
        let ghost p = path_view(path@);
        let ghost items = t.entries@;
        let ghost out0 = entry_views(out@);
        let ghost rest = qview(queue@);
        let n = t.entries.len();
        let mut j: usize = 0;
        while j < n
            invariant
                n == t.entries@.len(),
                j <= n,
                items == t.entries@,
                p == path_view(path@),
                entry_views(out@) =~~= out0 + records_of(p, items.take(j as int)),
                qview(queue@) =~~= rest + child_queue(p, items.take(j as int)),
            decreases n - j,
        {
            let ghost before_out = entry_views(out@);
            let ghost before_q = qview(queue@);
            proof {
                assert(items.take(j as int + 1).drop_last() =~~= items.take(j as int));
                assert(items.take(j as int + 1).last() == items[j as int]);
            }
            match &t.entries[j].node {
                Node::Dir(sub) => {
                    let new_path = extend_path(&path, &t.entries[j].name);
                    out.push(
                        TreeEntry {
                            path: new_path,
                            kind: EntryKind::Tree,
                            id: sub.id.duplicate(),
                        },
                    );
                    let child_path = extend_path(&path, &t.entries[j].name);
                    queue.push((child_path, sub));
                    proof {
                        assert(entry_views(out@) =~~= before_out.push(record_of(p, items[j as int])));
                        assert(qview(queue@) =~~= before_q.push(
                            (p.push(items[j as int].name@), *sub),
                        ));
                        assert(records_of(p, items.take(j as int + 1)) =~~= records_of(
                            p,
                            items.take(j as int),
                        ).push(record_of(p, items[j as int])));
                        assert(child_queue(p, items.take(j as int + 1)) =~~= child_queue(
                            p,
                            items.take(j as int),
                        ).push((p.push(items[j as int].name@), *sub)));
                        assert(entry_views(out@) =~~= out0 + records_of(p, items.take(j as int + 1)));
                        assert(qview(queue@) =~~= rest + child_queue(p, items.take(j as int + 1)));
                    }
                },
                Node::Leaf(k, id) => {
                    let new_path = extend_path(&path, &t.entries[j].name);
                    out.push(TreeEntry { path: new_path, kind: *k, id: id.duplicate() });
                    proof {
                        assert(entry_views(out@) =~~= before_out.push(record_of(p, items[j as int])));
                        assert(child_queue(p, items.take(j as int + 1)) =~~= child_queue(
                            p,
                            items.take(j as int),
                        ));
                        assert(records_of(p, items.take(j as int + 1)) =~~= records_of(
                            p,
                            items.take(j as int),
                        ).push(record_of(p, items[j as int])));
                        assert(entry_views(out@) =~~= out0 + records_of(p, items.take(j as int + 1)));
                        assert(qview(queue@) =~~= rest + child_queue(p, items.take(j as int + 1)));
                    }
                },
            }
            j += 1;
        }
        proof {
            assert(items.take(n as int) =~~= items);
            assert(q0[0] == (p, *t));
            assert(bfs(q0) == records_of(p, items) + bfs(
                q0.drop_first() + child_queue(p, items),
            ));
            assert(qview(queue@) =~~= q0.drop_first() + child_queue(p, items));
            assert(entry_views(out@) + bfs(qview(queue@)) =~~= (out0 + records_of(p, items)) + bfs(
                qview(queue@),
            ));
            assert((out0 + records_of(p, items)) + bfs(qview(queue@)) =~~= out0 + (records_of(
                p,
                items,
            ) + bfs(qview(queue@))));
            lemma_step_shrinks(q0);
        }
    }
    proof {
        assert(qview(queue@).len() == 0);
        assert(qview(queue@) =~~= Seq::<(Seq<Seq<u8>>, Tree)>::empty());
        assert(entry_views(out@) + bfs(qview(queue@)) =~~= entry_views(out@));
    }
    out
}

} // verus!
