//! The object metric cache: one mapping from content identity to an
//! optional per-object metric, shared across a whole run.

use vstd::prelude::*;

use crate::ids::EntryKind;
use crate::ids::Id;
use crate::lines::measure_content;
use crate::lines::metric_of;
use crate::lines::opt_nat;
use crate::table::Table;

verus! {

/// A referenced object could not be read from storage: fatal for the
/// run, carrying the identity that was missing.
#[derive(Debug)]
pub struct ObjectAccessError {
    pub missing: Id,
}

/// The byte content a blob store holds, by identity.
pub open spec fn blob_view(t: Table<Vec<u8>>) -> Map<Seq<u8>, Seq<u8>> {
    t@.map_values(|b: Vec<u8>| b@)
}

/// The object metric cache. It grows for the lifetime of one run and
/// an entry, once written, is never overwritten. Every raw content
/// fetch it ever performed is recorded in `fetch_log`, in order.
pub struct MetricCache {
    pub table: Table<Option<usize>>,
    pub fetch_log: Vec<Id>,
}

impl MetricCache {
    /// The mapping this cache holds: content identity to optional
    /// metric.
    pub open spec fn view(&self) -> Map<Seq<u8>, Option<nat>> {
        self.table@.map_values(|v: Option<usize>| opt_nat(v))
    }

    /// The identities fetched from raw storage so far, in order.
    pub open spec fn log(&self) -> Seq<Seq<u8>> {
        self.fetch_log@.map_values(|id: Id| id@)
    }

    /// Well-formed: distinct keys, and the fetch log never repeats an
    /// identity and only names cached ones.
    pub open spec fn wf(&self) -> bool {
        &&& self.table.wf()
        &&& self.log().no_duplicates()
        &&& forall|i: int| 0 <= i < self.log().len() ==> self@.contains_key(#[trigger] self.log()[i])
    }

    /// A fresh, empty cache with an empty fetch log.
    pub fn new() -> (r: MetricCache)
        ensures
            r.wf(),
            r@ == Map::<Seq<u8>, Option<nat>>::empty(),
            r.log() == Seq::<Seq<u8>>::empty(),
    {
        let r = MetricCache { table: Table::new(), fetch_log: Vec::new() };
        proof {
            assert(r@ =~= Map::<Seq<u8>, Option<nat>>::empty());
            assert(r.log() =~= Seq::<Seq<u8>>::empty());
        }
        r
    }

    /// How many raw content fetches this cache has performed.
    pub fn fetch_count(&self) -> (n: usize)
        ensures
            n == self.log().len(),
    {
        self.fetch_log.len()
    }

    /// Look an identity up, computing and storing its metric on a
    /// miss. A hit returns the stored value and fetches nothing. On a
    /// miss, a kind that bears no metric is stored as `None` without
    /// fetching; otherwise the content is fetched from the blob store
    /// (exactly once, ever, per identity), measured, and the result
    /// stored. A missing blob is a fatal access error and leaves the
    /// cache unchanged.
    pub fn lookup_or_compute(&mut self, id: &Id, kind: EntryKind, blobs: &Table<Vec<u8>>) -> (r:
        Result<Option<usize>, ObjectAccessError>)
        requires
            old(self).wf(),
            blobs.wf(),
            kind.is_blob_kind(),
        ensures
            final(self).wf(),
            old(self)@.contains_key(id@) ==> {
                &&& r matches Ok(v) && opt_nat(v) == old(self)@[id@]
                &&& final(self)@ == old(self)@
                &&& final(self).log() == old(self).log()
            },
            !old(self)@.contains_key(id@) && !kind.is_metric_bearing() ==> {
                &&& r matches Ok(v) && v is None
                &&& final(self)@ == old(self)@.insert(id@, None)
                &&& final(self).log() == old(self).log()
            },
            !old(self)@.contains_key(id@) && kind.is_metric_bearing() && blob_view(
                *blobs,
            ).contains_key(id@) ==> {
                &&& r matches Ok(v) && opt_nat(v) == metric_of(blob_view(*blobs)[id@])
                &&& final(self)@ == old(self)@.insert(id@, metric_of(blob_view(*blobs)[id@]))
                &&& final(self).log() == old(self).log().push(id@)
            },
            !old(self)@.contains_key(id@) && kind.is_metric_bearing() && !blob_view(
                *blobs,
            ).contains_key(id@) ==> {
                &&& r matches Err(e) && e.missing@ == id@
                &&& final(self)@ == old(self)@
                &&& final(self).log() == old(self).log()
            },
    {
        let cached = match self.table.get(id) {
            Some(v) => Some(*v),
            None => None,
        };
        match cached {
            Some(v) => {
                assert(self@.contains_key(id@) && self@[id@] == opt_nat(v));
                Ok(v)
            },
            None => {
                assert(!self@.contains_key(id@));
                if !kind.metric_bearing() {
                    self.table.insert(id.duplicate(), None);
                    proof {
                        assert(self@ =~= old(self)@.insert(id@, None));
                        assert(self.log() == old(self).log());
                    }
                    Ok(None)
                } else {
                    match blobs.get(id) {
                        Some(content) => {
                            let metric = measure_content(content);
                            self.fetch_log.push(id.duplicate());
                            self.table.insert(id.duplicate(), metric);
                            proof {
                                assert(blob_view(*blobs).contains_key(id@) && blob_view(*blobs)[id@]
                                    == content@);
                                assert(self@ =~= old(self)@.insert(
                                    id@,
                                    metric_of(blob_view(*blobs)[id@]),
                                ));
                                assert(self.log() =~= old(self).log().push(id@));
                                assert forall|i: int|
                                    0 <= i < self.log().len() implies self@.contains_key(
                                    #[trigger] self.log()[i],
                                ) by {
                                    if i < old(self).log().len() {
                                        assert(old(self)@.contains_key(old(self).log()[i]));
                                    }
                                }
                                assert(self.log().no_duplicates()) by {
                                    assert(forall|i: int|
                                        0 <= i < old(self).log().len() ==> old(self).log()[i]
                                            != id@);
                                }
                            }
                            Ok(metric)
                        },
                        None => {
                            assert(!blob_view(*blobs).contains_key(id@));
                            Err(ObjectAccessError { missing: id.duplicate() })
                        },
                    }
                }
            },
        }
    }
}

/// Cache correctness: however many evaluations shared this cache, no
/// content identity was ever fetched from raw storage twice.
pub proof fn lemma_fetched_at_most_once(c: MetricCache)
    requires
        c.wf(),
    ensures
        forall|i: int, j: int| 0 <= i < j < c.log().len() ==> c.log()[i] != c.log()[j],
{
}

} // verus!
