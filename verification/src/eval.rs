//! The commit metric evaluator: walks a commit's tree snapshot,
//! consults and populates the shared metric cache, and sums the
//! per-object metrics into one aggregate.

use vstd::prelude::*;

use crate::cache::blob_view;
use crate::cache::MetricCache;
use crate::cache::ObjectAccessError;
use crate::lines::metric_of;
use crate::lines::opt_nat;
use crate::table::Table;
use crate::tree::entry_views;
use crate::tree::tree_walk;
use crate::tree::EntryView;
use crate::tree::Tree;
use crate::tree::walk;

verus! {

/// A metric treated as a number: a missing metric contributes zero.
pub open spec fn metric_num(v: Option<nat>) -> nat {
    match v {
        Some(n) => n,
        None => 0,
    }
}

/// Everything one evaluation run does, mathematically: whether it
/// succeeded, the identity that was missing when it did not, the
/// aggregate it computed, the cache it left behind, and the raw
/// fetches it performed, in order.
#[verifier::ext_equal]
pub struct EvalOutcome {
    pub ok: bool,
    pub missing: Seq<u8>,
    pub total: nat,
    pub cache: Map<Seq<u8>, Option<nat>>,
    pub fetched: Seq<Seq<u8>>,
}

/// One evaluation pass over a record sequence, threading the cache:
/// each blob-kind record is looked up, a miss of a metric-bearing
/// kind fetches and measures the content, a miss of any other blob
/// kind stores no metric, and every record's metric (zero when
/// absent) is added to the aggregate. A record of any other kind is
/// passed over. A metric-bearing miss whose content the store lacks
/// fails the run at that point.
pub open spec fn eval_steps(
    entries: Seq<EntryView>,
    cache: Map<Seq<u8>, Option<nat>>,
    blobs: Map<Seq<u8>, Seq<u8>>,
) -> EvalOutcome
    decreases entries.len(),
{
    if entries.len() == 0 {
        EvalOutcome { ok: true, missing: Seq::empty(), total: 0, cache, fetched: Seq::empty() }
    } else {
        let e = entries[0];
        let rest = entries.drop_first();
        if !e.kind.is_blob_kind() {
            eval_steps(rest, cache, blobs)
        } else if cache.contains_key(e.id) {
            let o = eval_steps(rest, cache, blobs);
            EvalOutcome {
                ok: o.ok,
                missing: o.missing,
                total: metric_num(cache[e.id]) + o.total,
                cache: o.cache,
                fetched: o.fetched,
            }
        } else if !e.kind.is_metric_bearing() {
            eval_steps(rest, cache.insert(e.id, None), blobs)
        } else if blobs.contains_key(e.id) {
            let m = metric_of(blobs[e.id]);
            let o = eval_steps(rest, cache.insert(e.id, m), blobs);
            EvalOutcome {
                ok: o.ok,
                missing: o.missing,
                total: metric_num(m) + o.total,
                cache: o.cache,
                fetched: seq![e.id] + o.fetched,
            }
        } else {
            EvalOutcome { ok: false, missing: e.id, total: 0, cache, fetched: Seq::empty() }
        }
    }
}

/// Evaluate one commit's tree snapshot against the shared cache:
/// returns the total line count over all metric-bearing blobs in the
/// snapshot, fetching only content the cache has never seen, or the
/// identity of a missing blob. The outcome, the final cache and the
/// fetches performed are exactly those of `eval_steps` over the
/// breadth-first walk of the tree.
pub fn evaluate(tree: &Tree, blobs: &Table<Vec<u8>>, cache: &mut MetricCache) -> (r: Result<
    u128,
    ObjectAccessError,
>)
    requires
        old(cache).wf(),
        blobs.wf(),
    ensures
        final(cache).wf(),
        ({
            let o = eval_steps(tree_walk(*tree), old(cache)@, blob_view(*blobs));
            &&& final(cache)@ == o.cache
            &&& final(cache).log() == old(cache).log() + o.fetched
            &&& match r {
                Ok(t) => o.ok && t as nat == o.total,
                Err(e) => !o.ok && e.missing@ == o.missing,
            }
        }),
{
    let entries = walk(tree);
    let ghost evs = tree_walk(*tree);
    let ghost c0 = old(cache)@;
    let ghost bv = blob_view(*blobs);
    let ghost log0 = old(cache).log();
    let ghost full = eval_steps(evs, c0, bv);
    let n = entries.len();
    let mut sum: u128 = 0;
    let mut i: usize = 0;
    proof {
        assert(evs.skip(0) =~= evs);
        assert(log0 + Seq::<Seq<u8>>::empty() =~= log0);
    }
    while i < n
        invariant
            cache.wf(),
            blobs.wf(),
            n == entries@.len(),
            i <= n,
            evs == entry_views(entries@),
            evs == tree_walk(*tree),
            c0 == old(cache)@,
            bv == blob_view(*blobs),
            log0 == old(cache).log(),
            full == eval_steps(evs, c0, bv),
            log0.len() <= cache.log().len(),
            log0 == cache.log().take(log0.len() as int),
            ({
                let rem = eval_steps(evs.skip(i as int), cache@, bv);
                &&& full.ok == rem.ok
                &&& full.cache == rem.cache
                &&& (!rem.ok ==> full.missing == rem.missing)
                &&& full.total == sum as nat + rem.total
                &&& full.fetched == cache.log().skip(log0.len() as int) + rem.fetched
            }),
            sum as nat <= i as nat * usize::MAX as nat,
        decreases n - i,
    {
        let ghost pre_cache = cache@;
        let ghost pre_log = cache.log();
        let ghost rem = eval_steps(evs.skip(i as int), pre_cache, bv);
        proof {
            assert(evs.skip(i as int).len() > 0);
            assert(evs.skip(i as int)[0] == evs[i as int]);
            assert(evs.skip(i as int).drop_first() =~= evs.skip(i as int + 1));
            assert(entry_views(entries@)[i as int] == entries@[i as int]@);
        }
        let ghost e = evs[i as int];
        let kind = entries[i].kind;
        let added: usize;
        if kind.blob_kind() {
            match cache.lookup_or_compute(&entries[i].id, kind, blobs) {
                Ok(v) => {
                    added = match v {
                        Some(m) => m,
                        None => 0,
                    };
                    proof {
                        if pre_cache.contains_key(e.id) {
                            assert(added as nat == metric_num(pre_cache[e.id]));
                            assert(cache.log().skip(log0.len() as int) == pre_log.skip(
                                log0.len() as int,
                            ));
                        } else if !e.kind.is_metric_bearing() {
                            assert(added == 0);
                        } else {
                            assert(bv.contains_key(e.id));
                            assert(added as nat == metric_num(metric_of(bv[e.id])));
                            assert(cache.log() == pre_log.push(e.id));
                            assert(cache.log().take(log0.len() as int) =~= pre_log.take(
                                log0.len() as int,
                            ));
                            assert(cache.log().skip(log0.len() as int) =~= pre_log.skip(
                                log0.len() as int,
                            ).push(e.id));
                            assert(pre_log.skip(log0.len() as int).push(e.id) + eval_steps(
                                evs.skip(i as int + 1),
                                cache@,
                                bv,
                            ).fetched =~= pre_log.skip(log0.len() as int) + (seq![e.id]
                                + eval_steps(evs.skip(i as int + 1), cache@, bv).fetched));
                        }
                    }
                },
                Err(err) => {
                    proof {
                        assert(!pre_cache.contains_key(e.id) && e.kind.is_metric_bearing()
                            && !bv.contains_key(e.id));
                        assert(rem.ok == false && rem.missing == e.id);
                        assert(rem.cache == pre_cache && rem.fetched =~= Seq::<Seq<u8>>::empty());
                        assert(cache.log().skip(log0.len() as int) + rem.fetched =~= cache.log().skip(
                            log0.len() as int,
                        ));
                        assert(cache.log() =~= log0 + cache.log().skip(log0.len() as int));
                    }
                    return Err(err);
                },
            }
        } else {
            added = 0;
            proof {
                assert(!e.kind.is_blob_kind());
            }
        }
        proof {
            let m = usize::MAX as nat;
            assert(added as nat <= m);
            assert(sum as nat + added as nat <= (i as nat + 1) * m) by (nonlinear_arith)
                requires
                    sum as nat <= i as nat * m,
                    added as nat <= m;
            assert((i as nat + 1) * m <= m * m + m) by (nonlinear_arith)
                requires
                    i as nat + 1 <= m + 1,
                    m == usize::MAX as nat;
            assert((usize::MAX as nat * usize::MAX as nat + usize::MAX as nat) < (
            u128::MAX as nat)) by (nonlinear_arith)
                requires
                    usize::MAX as nat <= u64::MAX as nat;
        }
        sum = sum + added as u128;
        i += 1;
    }
    proof {
        let rem = eval_steps(evs.skip(n as int), cache@, bv);
        assert(evs.skip(n as int) =~= Seq::<EntryView>::empty());
        assert(rem.total == 0 && rem.ok && rem.fetched =~= Seq::<Seq<u8>>::empty());
        assert(cache.log().skip(log0.len() as int) + rem.fetched =~= cache.log().skip(
            log0.len() as int,
        ));
        assert(cache.log() =~= log0 + cache.log().skip(log0.len() as int));
    }
    Ok(sum)
}

/// The sum of the cached metrics over the blob-kind records of a
/// sequence, one contribution per occurrence, a missing metric
/// counting zero.
pub open spec fn sum_cached(entries: Seq<EntryView>, m: Map<Seq<u8>, Option<nat>>) -> nat
    decreases entries.len(),
{
    if entries.len() == 0 {
        0
    } else {
        (if entries[0].kind.is_blob_kind() {
            metric_num(m[entries[0].id])
        } else {
            0
        }) + sum_cached(entries.drop_first(), m)
    }
}

/// Whether every blob-kind record of a sequence is already cached.
pub open spec fn all_cached(entries: Seq<EntryView>, m: Map<Seq<u8>, Option<nat>>) -> bool {
    forall|i: int|
        0 <= i < entries.len() && (#[trigger] entries[i]).kind.is_blob_kind()
            ==> m.contains_key(entries[i].id)
}

/// Cache correctness of one evaluation: the cache only grows and no
/// stored value ever changes; on success every blob-kind record ends
/// up cached; and the run fetches only identities the cache did not
/// hold, each at most once, all cached afterwards.
pub proof fn lemma_eval_extends(
    entries: Seq<EntryView>,
    cache: Map<Seq<u8>, Option<nat>>,
    blobs: Map<Seq<u8>, Seq<u8>>,
)
    ensures
        ({
            let o = eval_steps(entries, cache, blobs);
            &&& forall|k: Seq<u8>|
                #[trigger] cache.contains_key(k) ==> o.cache.contains_key(k) && o.cache[k]
                    == cache[k]
            &&& (o.ok ==> all_cached(entries, o.cache))
            &&& o.fetched.no_duplicates()
            &&& forall|j: int|
                0 <= j < o.fetched.len() ==> !cache.contains_key(#[trigger] o.fetched[j])
                    && o.cache.contains_key(o.fetched[j])
        }),
    decreases entries.len(),
{
    let o = eval_steps(entries, cache, blobs);
    if entries.len() > 0 {
        let e = entries[0];
        let rest = entries.drop_first();
        if !e.kind.is_blob_kind() {
            lemma_eval_extends(rest, cache, blobs);
            assert(o.ok ==> all_cached(entries, o.cache)) by {
                if o.ok {
                    assert(forall|i: int|
                        1 <= i < entries.len() ==> entries[i] == rest[i - 1]);
                }
            }
        } else if cache.contains_key(e.id) {
            lemma_eval_extends(rest, cache, blobs);
            assert(o.ok ==> all_cached(entries, o.cache)) by {
                if o.ok {
                    assert(forall|i: int|
                        1 <= i < entries.len() ==> entries[i] == rest[i - 1]);
                    assert(o.cache.contains_key(e.id));
                }
            }
        } else if !e.kind.is_metric_bearing() {
            let c2 = cache.insert(e.id, None);
            lemma_eval_extends(rest, c2, blobs);
            assert forall|k: Seq<u8>| #[trigger] cache.contains_key(k) implies eval_steps(
                rest,
                c2,
                blobs,
            ).cache.contains_key(k) && eval_steps(rest, c2, blobs).cache[k] == cache[k] by {
                assert(c2.contains_key(k));
            }
            assert(o.ok ==> all_cached(entries, o.cache)) by {
                if o.ok {
                    assert(forall|i: int|
                        1 <= i < entries.len() ==> entries[i] == rest[i - 1]);
                    assert(c2.contains_key(e.id));
                    assert(eval_steps(rest, c2, blobs).cache.contains_key(e.id));
                }
            }
        } else if blobs.contains_key(e.id) {
            let m = metric_of(blobs[e.id]);
            let c2 = cache.insert(e.id, m);
            lemma_eval_extends(rest, c2, blobs);
            assert forall|k: Seq<u8>| #[trigger] cache.contains_key(k) implies eval_steps(
                rest,
                c2,
                blobs,
            ).cache.contains_key(k) && eval_steps(rest, c2, blobs).cache[k] == cache[k] by {
                assert(c2.contains_key(k));
            }
            let o2 = eval_steps(rest, c2, blobs);
            assert(forall|i: int| 1 <= i < entries.len() ==> entries[i] == rest[i - 1]);
            assert(c2.contains_key(e.id));
            assert(o.fetched == seq![e.id] + o2.fetched);
            assert(forall|j: int|
                0 <= j < o2.fetched.len() ==> !c2.contains_key(#[trigger] o2.fetched[j]));
            assert(forall|j: int| 0 <= j < o2.fetched.len() ==> o2.fetched[j] != e.id);
            assert(forall|j: int|
                1 <= j < o.fetched.len() ==> o.fetched[j] == o2.fetched[j - 1]);
            assert(o.fetched[0] == e.id);
            assert(o.fetched.no_duplicates());
        }
    }
}

/// A warmed cache evaluates without changing anything: every record
/// hits, nothing is fetched, and the aggregate is the sum of the
/// cached metrics.
pub proof fn lemma_eval_warm(
    entries: Seq<EntryView>,
    m: Map<Seq<u8>, Option<nat>>,
    blobs: Map<Seq<u8>, Seq<u8>>,
)
    requires
        all_cached(entries, m),
    ensures
        ({
            let o = eval_steps(entries, m, blobs);
            &&& o.ok
            &&& o.cache == m
            &&& o.fetched == Seq::<Seq<u8>>::empty()
            &&& o.total == sum_cached(entries, m)
        }),
    decreases entries.len(),
{
    if entries.len() > 0 {
        let rest = entries.drop_first();
        assert(forall|i: int| 1 <= i < entries.len() ==> entries[i] == rest[i - 1]);
        assert(entries[0] == entries[0]);
        lemma_eval_warm(rest, m, blobs);
    }
}

/// Additivity: a successful evaluation's aggregate is exactly the sum
/// of the final cache's metrics over the blob-kind records of the
/// walk, every other record contributing nothing. (It is a `nat`, so
/// it is never negative; a walk with no records sums to zero.)
pub proof fn lemma_eval_total(
    entries: Seq<EntryView>,
    cache: Map<Seq<u8>, Option<nat>>,
    blobs: Map<Seq<u8>, Seq<u8>>,
)
    ensures
        ({
            let o = eval_steps(entries, cache, blobs);
            o.ok ==> o.total == sum_cached(entries, o.cache)
        }),
    decreases entries.len(),
{
    let o = eval_steps(entries, cache, blobs);
    if entries.len() > 0 && o.ok {
        let e = entries[0];
        let rest = entries.drop_first();
        if !e.kind.is_blob_kind() {
            lemma_eval_total(rest, cache, blobs);
        } else if cache.contains_key(e.id) {
            lemma_eval_total(rest, cache, blobs);
            lemma_eval_extends(rest, cache, blobs);
            assert(o.cache[e.id] == cache[e.id]);
        } else if !e.kind.is_metric_bearing() {
            let c2 = cache.insert(e.id, None);
            lemma_eval_total(rest, c2, blobs);
            lemma_eval_extends(rest, c2, blobs);
            assert(c2.contains_key(e.id));
            assert(o.cache[e.id] == c2[e.id]);
        } else {
            let m = metric_of(blobs[e.id]);
            let c2 = cache.insert(e.id, m);
            lemma_eval_total(rest, c2, blobs);
            lemma_eval_extends(rest, c2, blobs);
            assert(c2.contains_key(e.id));
            assert(o.cache[e.id] == c2[e.id]);
        }
    }
}

/// A snapshot with no entries at all aggregates to zero and touches
/// nothing.
pub proof fn lemma_empty_tree_total(
    t: Tree,
    cache: Map<Seq<u8>, Option<nat>>,
    blobs: Map<Seq<u8>, Seq<u8>>,
)
    requires
        t.entries@.len() == 0,
    ensures
        ({
            let o = eval_steps(tree_walk(t), cache, blobs);
            &&& o.ok
            &&& o.total == 0
            &&& o.cache == cache
            &&& o.fetched == Seq::<Seq<u8>>::empty()
        }),
{
    let q = seq![(Seq::<Seq<u8>>::empty(), t)];
    assert(crate::tree::records_of(Seq::empty(), t.entries@) =~= Seq::<EntryView>::empty());
    assert(crate::tree::child_queue(Seq::empty(), t.entries@) =~= Seq::<
        (Seq<Seq<u8>>, Tree),
    >::empty());
    assert(q.drop_first() + crate::tree::child_queue(Seq::empty(), t.entries@) =~= Seq::<
        (Seq<Seq<u8>>, Tree),
    >::empty());
    assert(crate::tree::bfs(Seq::empty()) =~= Seq::<EntryView>::empty());
    assert(tree_walk(t) =~= Seq::<EntryView>::empty());
}

/// Idempotence: evaluating the same records again with the cache the
/// first evaluation left behind returns the same aggregate, changes
/// nothing, and fetches nothing.
pub proof fn lemma_eval_idempotent(
    entries: Seq<EntryView>,
    cache: Map<Seq<u8>, Option<nat>>,
    blobs: Map<Seq<u8>, Seq<u8>>,
)
    requires
        eval_steps(entries, cache, blobs).ok,
    ensures
        ({
            let o = eval_steps(entries, cache, blobs);
            let again = eval_steps(entries, o.cache, blobs);
            &&& again.ok
            &&& again.total == o.total
            &&& again.cache == o.cache
            &&& again.fetched == Seq::<Seq<u8>>::empty()
        }),
{
    let o = eval_steps(entries, cache, blobs);
    lemma_eval_extends(entries, cache, blobs);
    lemma_eval_warm(entries, o.cache, blobs);
    lemma_eval_total(entries, cache, blobs);
}

} // verus!
