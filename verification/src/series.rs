//! The series collector: drive the ancestry iterator, evaluate each
//! commit against one shared cache, and assemble the ordered series
//! with its domain bounds.

use vstd::prelude::*;

use crate::ancestry::ancestors;
use crate::ancestry::ids_view;
use crate::ancestry::reaches;
use crate::ancestry::valid_ancestry;
use crate::ancestry::AncestryOrder;
use crate::ancestry::CommitData;
use crate::cache::blob_view;
use crate::cache::MetricCache;
use crate::cache::ObjectAccessError;
use crate::eval::eval_steps;
use crate::eval::evaluate;
use crate::table::Table;
use crate::tree::tree_walk;
use crate::tree::Tree;

verus! {

/// One point of the series: the position in traversal order and the
/// commit's aggregate metric.
#[derive(Debug)]
pub struct SeriesEntry {
    pub ordinal: usize,
    pub metric: u128,
}

/// The collected series: the commits in traversal order, one entry
/// per commit, and the domain bounds a chart needs.
#[derive(Debug)]
pub struct Series {
    pub ids: Vec<crate::ids::Id>,
    pub entries: Vec<SeriesEntry>,
    pub x_max: usize,
    pub y_max: u128,
}

/// Everything one collection run computes, mathematically: whether it
/// succeeded, the identity missing when it did not, the aggregate of
/// each commit in order, and the cache it left behind.
#[verifier::ext_equal]
pub struct RunOutcome {
    pub ok: bool,
    pub missing: Seq<u8>,
    pub totals: Seq<nat>,
    pub cache: Map<Seq<u8>, Option<nat>>,
}

/// One collection run over an ordered commit sequence, threading the
/// one shared cache through every evaluation: resolve the commit,
/// resolve its root tree, evaluate the tree's walk. The run fails at
/// the first commit, tree or blob that cannot be resolved.
pub open spec fn run_steps(
    order: Seq<Seq<u8>>,
    cm: Map<Seq<u8>, CommitData>,
    tm: Map<Seq<u8>, Tree>,
    bm: Map<Seq<u8>, Seq<u8>>,
    cache: Map<Seq<u8>, Option<nat>>,
) -> RunOutcome
    decreases order.len(),
{
    if order.len() == 0 {
        RunOutcome { ok: true, missing: Seq::empty(), totals: Seq::empty(), cache }
    } else {
        let c = order[0];
        if !cm.contains_key(c) {
            RunOutcome { ok: false, missing: c, totals: Seq::empty(), cache }
        } else if !tm.contains_key(cm[c].root_tree@) {
            RunOutcome { ok: false, missing: cm[c].root_tree@, totals: Seq::empty(), cache }
        } else {
            let o = eval_steps(tree_walk(tm[cm[c].root_tree@]), cache, bm);
            if !o.ok {
                RunOutcome { ok: false, missing: o.missing, totals: Seq::empty(), cache: o.cache }
            } else {
                let rest = run_steps(order.drop_first(), cm, tm, bm, o.cache);
                RunOutcome {
                    ok: rest.ok,
                    missing: rest.missing,
                    totals: seq![o.total] + rest.totals,
                    cache: rest.cache,
                }
            }
        }
    }
}

/// The largest value of a sequence, zero when it is empty.
pub open spec fn seq_max(s: Seq<nat>) -> nat
    decreases s.len(),
{
    if s.len() == 0 {
        0
    } else if s.last() > seq_max(s.drop_last()) {
        s.last()
    } else {
        seq_max(s.drop_last())
    }
}

/// Collect the series for the ancestry of `start` in the selected
/// order: the ancestry's commits, one aggregate metric per commit
/// computed against a single fresh cache, and the bounds
/// `x_max = count - 1` (zero for an empty sequence) and
/// `y_max = max(metric)`. Fails with the missing identity exactly
/// when a reachable commit, a root tree or a blob cannot be resolved.
pub fn collect(
    commits: &Table<CommitData>,
    trees: &Table<Tree>,
    blobs: &Table<Vec<u8>>,
    start: &crate::ids::Id,
    order: AncestryOrder,
) -> (r: Result<Series, ObjectAccessError>)
    requires
        commits.wf(),
        trees.wf(),
        blobs.wf(),
    ensures
        match r {
            Ok(s) => {
                let ro = run_steps(
                    ids_view(s.ids@),
                    commits@,
                    trees@,
                    blob_view(*blobs),
                    Map::empty(),
                );
                &&& valid_ancestry(commits@, start@, order, ids_view(s.ids@))
                &&& ro.ok
                &&& s.entries@.len() == s.ids@.len()
                &&& ro.totals.len() == s.ids@.len()
                &&& forall|i: int| 0 <= i < s.entries@.len() ==> (#[trigger] s.entries@[i]).ordinal
                    == i && s.entries@[i].metric as nat == ro.totals[i]
                &&& s.x_max as int == if s.ids@.len() == 0 {
                    0
                } else {
                    s.ids@.len() - 1
                }
                &&& s.y_max as nat == seq_max(ro.totals)
            },
            Err(e) => (reaches(commits@, start@, e.missing@) && !commits@.contains_key(e.missing@))
                || (exists|v: Seq<Seq<u8>>|
                {
                    let ro = run_steps(v, commits@, trees@, blob_view(*blobs), Map::empty());
                    &&& #[trigger] valid_ancestry(commits@, start@, order, v)
                    &&& !ro.ok
                    &&& ro.missing == e.missing@
                }),
        },
{
    let ghost cm = commits@;
    let ghost tm = trees@;
    let ghost bm = blob_view(*blobs);
    let ids = match ancestors(commits, start, order) {
        Ok(v) => v,
        Err(e) => {
            return Err(e);
        },
    };
    let ghost idsv = ids_view(ids@);
    let ghost full = run_steps(idsv, cm, tm, bm, Map::empty());
    let mut cache = MetricCache::new();
    let mut entries: Vec<SeriesEntry> = Vec::new();
    let mut y_max: u128 = 0;
    let n = ids.len();
    let mut i: usize = 0;
    proof {
        assert(idsv.skip(0) =~= idsv);
    }
    while i < n
        invariant
            commits.wf(),
            trees.wf(),
            blobs.wf(),
            cache.wf(),
            cm == commits@,
            tm == trees@,
            bm == blob_view(*blobs),
            n == ids@.len(),
            i <= n,
            idsv == ids_view(ids@),
            valid_ancestry(cm, start@, order, idsv),
            full == run_steps(idsv, cm, tm, bm, Map::empty()),
            entries@.len() == i,
            ({
                let rem = run_steps(idsv.skip(i as int), cm, tm, bm, cache@);
                &&& full.ok == rem.ok
                &&& full.cache == rem.cache
                &&& (!rem.ok ==> full.missing == rem.missing)
                &&& full.totals =~= entries@.map_values(|e: SeriesEntry| e.metric as nat)
                    + rem.totals
            }),
            forall|j: int| 0 <= j < i ==> (#[trigger] entries@[j]).ordinal == j,
            y_max as nat == seq_max(
                entries@.map_values(|e: SeriesEntry| e.metric as nat),
            ),
        decreases n - i,
    {
        let ghost pre_cache = cache@;
        let ghost rem = run_steps(idsv.skip(i as int), cm, tm, bm, pre_cache);
        let ghost done = entries@.map_values(|e: SeriesEntry| e.metric as nat);
        proof {
            assert(idsv.skip(i as int)[0] == idsv[i as int]);
            assert(idsv.skip(i as int).drop_first() =~= idsv.skip(i as int + 1));
            assert(ids_view(ids@)[i as int] == ids@[i as int]@);
        }
        let data = match commits.get(&ids[i]) {
            Some(d) => d,
            None => unreached(),
        };
        let tree = match trees.get(&data.root_tree) {
            Some(t) => t,
            None => {
                proof {
                    assert(!rem.ok && rem.missing == cm[idsv[i as int]].root_tree@);
                    assert(rem.cache == pre_cache);
                }
                return Err(ObjectAccessError { missing: data.root_tree.duplicate() });
            },
        };
        let metric = match evaluate(tree, blobs, &mut cache) {
            Ok(t) => t,
            Err(e) => {
                proof {
                    let o = eval_steps(tree_walk(tm[cm[idsv[i as int]].root_tree@]), pre_cache, bm);
                    assert(!o.ok && e.missing@ == o.missing);
                    assert(!rem.ok && rem.missing == o.missing);
                }
                return Err(e);
            },
        };
        let ghost o = eval_steps(tree_walk(tm[cm[idsv[i as int]].root_tree@]), pre_cache, bm);
        entries.push(SeriesEntry { ordinal: i, metric });
        if metric > y_max {
            y_max = metric;
        }
        proof {
            let done2 = entries@.map_values(|e: SeriesEntry| e.metric as nat);
            assert(done2 =~= done.push(o.total));
            assert(full.totals =~= done2 + run_steps(idsv.skip(i as int + 1), cm, tm, bm, cache@).totals) by {
                assert(rem.totals =~= seq![o.total] + run_steps(
                    idsv.skip(i as int + 1),
                    cm,
                    tm,
                    bm,
                    o.cache,
                ).totals);
            }
            assert(done2.drop_last() =~= done);
            assert(seq_max(done2) == if o.total > seq_max(done) {
                o.total
            } else {
                seq_max(done)
            });
        }
        i += 1;
    }
    proof {
        let rem = run_steps(idsv.skip(n as int), cm, tm, bm, cache@);
        assert(idsv.skip(n as int) =~= Seq::<Seq<u8>>::empty());
        assert(rem.ok && rem.totals =~= Seq::<nat>::empty());
        assert(full.totals =~= entries@.map_values(|e: SeriesEntry| e.metric as nat));
    }
    let x_max = if n == 0 {
        0
    } else {
        n - 1
    };
    Ok(Series { ids, entries, x_max, y_max })
}

} // verus!
