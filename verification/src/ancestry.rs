//! The ancestry iterator: every commit reachable over parent edges
//! from a starting commit, exactly once, in a caller-selected order.

use vstd::prelude::*;

use crate::cache::ObjectAccessError;
use crate::ids::Id;
use crate::table::Table;

verus! {

/// One commit's data: its root tree snapshot identity, its parent
/// commit identities in order, and its commit time as seconds with a
/// UTC offset (the offset is carried for presentation only).
#[derive(Debug)]
pub struct CommitData {
    pub root_tree: Id,
    pub parents: Vec<Id>,
    pub seconds: i64,
    pub offset_seconds: i32,
}

/// The order an ancestry traversal yields commits in.
#[derive(Clone, Copy, Debug, PartialEq, Eq, Structural)]
pub enum AncestryOrder {
    /// Every commit only after all of its visited children.
    Topological,
    /// Strictly non-increasing commit time, ties broken by identity.
    TimeDescending,
}

/// The identities a sequence of owned identities denotes.
pub open spec fn ids_view(v: Seq<Id>) -> Seq<Seq<u8>> {
    v.map_values(|id: Id| id@)
}

/// A commit's parent identities.
pub open spec fn parents_view(c: CommitData) -> Seq<Seq<u8>> {
    c.parents@.map_values(|p: Id| p@)
}

/// A set of identities is closed under parent edges: every member the
/// store knows has all its parents in the set.
pub open spec fn closed(m: Map<Seq<u8>, CommitData>, s: Set<Seq<u8>>) -> bool {
    forall|c: Seq<u8>, j: int|
        s.contains(c) && m.contains_key(c) && 0 <= j < parents_view(#[trigger] m[c]).len()
            ==> s.contains(#[trigger] parents_view(m[c])[j])
}

/// A parent chain: consecutive elements are linked by a parent edge,
/// every element but possibly the last resolvable in the store.
pub open spec fn is_chain(m: Map<Seq<u8>, CommitData>, p: Seq<Seq<u8>>) -> bool {
    &&& p.len() >= 1
    &&& forall|k: int|
        0 <= k < p.len() - 1 ==> m.contains_key(#[trigger] p[k]) && parents_view(m[p[k]]).contains(
            p[k + 1],
        )
}

/// An identity is an ancestor of (or is) the start: some parent chain
/// leads from the start to it.
pub open spec fn reaches(m: Map<Seq<u8>, CommitData>, start: Seq<u8>, c: Seq<u8>) -> bool {
    exists|p: Seq<Seq<u8>>| is_chain(m, p) && p[0] == start && p.last() == c
}

/// The start reaches itself.
pub proof fn lemma_reaches_self(m: Map<Seq<u8>, CommitData>, start: Seq<u8>)
    ensures
        reaches(m, start, start),
{
    let p = seq![start];
    assert(is_chain(m, p) && p[0] == start && p.last() == start);
}

/// Reachability steps across one parent edge.
pub proof fn lemma_reaches_parent(
    m: Map<Seq<u8>, CommitData>,
    start: Seq<u8>,
    c: Seq<u8>,
    p: Seq<u8>,
)
    requires
        reaches(m, start, c),
        m.contains_key(c),
        parents_view(m[c]).contains(p),
    ensures
        reaches(m, start, p),
{
    let q = choose|q: Seq<Seq<u8>>| is_chain(m, q) && q[0] == start && q.last() == c;
    let q2 = q.push(p);
    assert forall|k: int| 0 <= k < q2.len() - 1 implies m.contains_key(#[trigger] q2[k])
        && parents_view(m[q2[k]]).contains(q2[k + 1]) by {
        if k < q.len() - 1 {
            assert(q2[k] == q[k] && q2[k + 1] == q[k + 1]);
        } else {
            assert(q2[k] == q.last() && q2[k + 1] == p);
        }
    }
    assert(is_chain(m, q2) && q2[0] == start && q2.last() == p);
}

/// Everything a chain from inside a closed set visits stays inside.
proof fn lemma_chain_in_closed(m: Map<Seq<u8>, CommitData>, s: Set<Seq<u8>>, p: Seq<Seq<u8>>)
    requires
        closed(m, s),
        is_chain(m, p),
        s.contains(p[0]),
    ensures
        s.contains(p.last()),
    decreases p.len(),
{
    if p.len() > 1 {
        assert(m.contains_key(p[0]) && parents_view(m[p[0]]).contains(p[1]));
        let j = choose|j: int| 0 <= j < parents_view(m[p[0]]).len() && parents_view(m[p[0]])[j]
            == p[1];
        assert(s.contains(p[1]));
        let rest = p.drop_first();
        assert forall|k: int| 0 <= k < rest.len() - 1 implies m.contains_key(#[trigger] rest[k])
            && parents_view(m[rest[k]]).contains(rest[k + 1]) by {
            assert(rest[k] == p[k + 1] && rest[k + 1] == p[k + 2]);
        }
        assert(is_chain(m, rest) && rest[0] == p[1] && rest.last() == p.last());
        lemma_chain_in_closed(m, s, rest);
    }
}

/// A closed set holding the start holds everything the start reaches.
pub proof fn lemma_reach_in_closed(
    m: Map<Seq<u8>, CommitData>,
    s: Set<Seq<u8>>,
    start: Seq<u8>,
    c: Seq<u8>,
)
    requires
        closed(m, s),
        s.contains(start),
        reaches(m, start, c),
    ensures
        s.contains(c),
{
    let p = choose|p: Seq<Seq<u8>>| is_chain(m, p) && p[0] == start && p.last() == c;
    lemma_chain_in_closed(m, s, p);
}

/// A bound on how many distinct identities a store can hold: any
/// duplicate-free identity sequence drawn from its keys is no longer
/// than its row count.
proof fn lemma_distinct_in_store_bound<V>(rows: Seq<(Id, V)>, ids: Seq<Seq<u8>>)
    requires
        ids.no_duplicates(),
        forall|j: int| 0 <= j < ids.len() ==> crate::table::map_of(rows).contains_key(
            #[trigger] ids[j],
        ),
    ensures
        ids.len() <= rows.len(),
{
    broadcast use vstd::set_lib::group_set_lib_default, vstd::set::group_set_axioms;

    crate::table::lemma_map_of_dom(rows);
    let keys = rows.map_values(|r: (Id, V)| r.0@);
    ids.unique_seq_to_set();
    assert(ids.to_set().subset_of(keys.to_set())) by {
        assert forall|x: Seq<u8>| ids.to_set().contains(x) implies keys.to_set().contains(x) by {
            let j = choose|j: int| 0 <= j < ids.len() && ids[j] == x;
            assert(crate::table::map_of(rows).contains_key(x));
        }
    }
    keys.lemma_cardinality_of_set();
    vstd::set_lib::lemma_len_subset(ids.to_set(), keys.to_set());
}

/// Whether a vector of identities holds one.
fn contains_id(v: &Vec<Id>, id: &Id) -> (r: bool)
    ensures
        r == ids_view(v@).contains(id@),
{
    let n = v.len();
    let mut i: usize = 0;
    while i < n
        invariant
            n == v@.len(),
            i <= n,
            forall|j: int| 0 <= j < i ==> ids_view(v@)[j] != id@,
        decreases n - i,
    {
        if v[i].eq_id(id) {
            assert(ids_view(v@)[i as int] == id@);
            return true;
        }
        i += 1;
    }
    false
}

/// Collect every commit reachable from the start over parent edges,
/// each exactly once, the start first, in discovery order. Fails with
/// the missing identity exactly when some reachable commit (the start
/// included) cannot be resolved in the store.
pub fn reachable_commits(store: &Table<CommitData>, start: &Id) -> (r: Result<
    Vec<Id>,
    ObjectAccessError,
>)
    requires
        store.wf(),
    ensures
        match r {
            Ok(v) => {
                &&& v@.len() >= 1
                &&& ids_view(v@)[0] == start@
                &&& ids_view(v@).no_duplicates()
                &&& forall|j: int| 0 <= j < v@.len() ==> store@.contains_key(
                    #[trigger] ids_view(v@)[j],
                )
                &&& closed(store@, ids_view(v@).to_set())
                &&& forall|j: int| 0 <= j < v@.len() ==> reaches(
                    store@,
                    start@,
                    #[trigger] ids_view(v@)[j],
                )
                &&& forall|c: Seq<u8>| reaches(store@, start@, c) ==> ids_view(v@).to_set().contains(
                    c,
                )
            },
            Err(e) => reaches(store@, start@, e.missing@) && !store@.contains_key(e.missing@),
        },
{
    let ghost m = store@;
    if !store.contains(start) {
        proof {
            lemma_reaches_self(m, start@);
        }
        return Err(ObjectAccessError { missing: start.duplicate() });
    }
    let mut visited: Vec<Id> = Vec::new();
    visited.push(start.duplicate());
    proof {
        assert(ids_view(visited@) =~= seq![start@]);
        lemma_reaches_self(m, start@);
    }
    let mut i: usize = 0;
    while i < visited.len()
        invariant
            store.wf(),
            m == store@,
            i <= visited.len(),
            visited@.len() >= 1,
            ids_view(visited@)[0] == start@,
            ids_view(visited@).no_duplicates(),
            forall|j: int| 0 <= j < visited@.len() ==> m.contains_key(
                #[trigger] ids_view(visited@)[j],
            ),
            forall|j: int| 0 <= j < visited@.len() ==> reaches(
                m,
                start@,
                #[trigger] ids_view(visited@)[j],
            ),
            forall|j: int, k: int|
                0 <= j < i && 0 <= k < parents_view(#[trigger] m[ids_view(visited@)[j]]).len()
                    ==> ids_view(visited@).contains(
                    #[trigger] parents_view(m[ids_view(visited@)[j]])[k],
                ),
            visited@.len() <= store.rows@.len(),
        decreases store.rows@.len() - i,
    {
        let cur = visited[i].duplicate();
        let ghost cur_id = ids_view(visited@)[i as int];
        assert(cur@ == cur_id);
        let data = match store.get(&cur) {
            Some(d) => d,
            None => {
                proof {
                    assert(false);
                }
                unreached()
            },
        };
        let np = data.parents.len();
        let mut k: usize = 0;
        while k < np
            invariant
                store.wf(),
                m == store@,
                np == data.parents@.len(),
                k <= np,
                m.contains_key(cur@),
                *data == m[cur@],
                i < visited@.len(),
                visited@.len() >= 1,
                ids_view(visited@)[0] == start@,
                ids_view(visited@).no_duplicates(),
                cur@ == ids_view(visited@)[i as int],
                forall|j: int| 0 <= j < visited@.len() ==> m.contains_key(
                    #[trigger] ids_view(visited@)[j],
                ),
                forall|j: int| 0 <= j < visited@.len() ==> reaches(
                    m,
                    start@,
                    #[trigger] ids_view(visited@)[j],
                ),
                forall|j: int, kk: int|
                    0 <= j < i && 0 <= kk < parents_view(#[trigger] m[ids_view(visited@)[j]]).len()
                        ==> ids_view(visited@).contains(
                        #[trigger] parents_view(m[ids_view(visited@)[j]])[kk],
                    ),
                forall|kk: int| 0 <= kk < k ==> ids_view(visited@).contains(
                    #[trigger] parents_view(m[cur@])[kk],
                ),
                visited@.len() <= store.rows@.len(),
            decreases np - k,
        {
            let p = &data.parents[k];
            proof {
                assert(parents_view(m[cur@])[k as int] == p@);
                lemma_reaches_parent(m, start@, cur@, p@);
            }
            if !store.contains(p) {
                return Err(ObjectAccessError { missing: p.duplicate() });
            }
            if !contains_id(&visited, p) {
                let ghost before = ids_view(visited@);
                visited.push(p.duplicate());
                proof {
                    assert(ids_view(visited@) =~= before.push(p@));
                    assert(ids_view(visited@).no_duplicates());
                    lemma_distinct_in_store_bound(store.rows@, ids_view(visited@));
                    assert(forall|j: int|
                        0 <= j < before.len() ==> ids_view(visited@)[j] == before[j]);
                    assert(ids_view(visited@)[before.len() as int] == p@);
                    assert forall|y: Seq<u8>| before.contains(y) implies ids_view(
                        visited@,
                    ).contains(y) by {
                        let w = choose|w: int| 0 <= w < before.len() && before[w] == y;
                        assert(ids_view(visited@)[w] == y);
                    }
                }
            }
            proof {
                assert(ids_view(visited@).contains(p@));
            }
            k += 1;
        }
        i += 1;
    }
    proof {
        let vs = ids_view(visited@);
        assert(closed(m, vs.to_set())) by {
            assert forall|c: Seq<u8>, j: int|
                vs.to_set().contains(c) && m.contains_key(c) && 0 <= j < parents_view(
                    #[trigger] m[c],
                ).len() implies vs.to_set().contains(#[trigger] parents_view(m[c])[j]) by {
                let l = choose|l: int| 0 <= l < vs.len() && vs[l] == c;
                assert(vs.contains(parents_view(m[vs[l]])[j]));
            }
        }
        assert forall|c: Seq<u8>| reaches(m, start@, c) implies vs.to_set().contains(c) by {
            assert(vs.to_set().contains(start@));
            lemma_reach_in_closed(m, vs.to_set(), start@, c);
        }
    }
    Ok(visited)
}

/// Lexicographic order on identity bytes: the deterministic tie
/// breaker for equal commit times.
pub open spec fn lex_le(a: Seq<u8>, b: Seq<u8>) -> bool
    decreases a.len(),
{
    if a.len() == 0 {
        true
    } else if b.len() == 0 {
        false
    } else if a[0] < b[0] {
        true
    } else if a[0] > b[0] {
        false
    } else {
        lex_le(a.drop_first(), b.drop_first())
    }
}

/// Lexicographic order is reflexive.
pub proof fn lemma_lex_refl(a: Seq<u8>)
    ensures
        lex_le(a, a),
    decreases a.len(),
{
    if a.len() > 0 {
        lemma_lex_refl(a.drop_first());
    }
}

/// Lexicographic order is total.
pub proof fn lemma_lex_total(a: Seq<u8>, b: Seq<u8>)
    ensures
        lex_le(a, b) || lex_le(b, a),
    decreases a.len(),
{
    if a.len() > 0 && b.len() > 0 && a[0] == b[0] {
        lemma_lex_total(a.drop_first(), b.drop_first());
    }
}

/// Lexicographic order is transitive.
pub proof fn lemma_lex_trans(a: Seq<u8>, b: Seq<u8>, c: Seq<u8>)
    requires
        lex_le(a, b),
        lex_le(b, c),
    ensures
        lex_le(a, c),
    decreases a.len(),
{
    if a.len() > 0 && b.len() > 0 && c.len() > 0 && a[0] == b[0] && b[0] == c[0] {
        lemma_lex_trans(a.drop_first(), b.drop_first(), c.drop_first());
    }
}

/// One identity precedes another in the time-descending order: a
/// strictly later commit time comes first, equal times fall back to
/// identity bytes.
pub open spec fn precedes(m: Map<Seq<u8>, CommitData>, a: Seq<u8>, b: Seq<u8>) -> bool {
    m[a].seconds > m[b].seconds || (m[a].seconds == m[b].seconds && lex_le(a, b))
}

/// The time-descending order is total.
pub proof fn lemma_precedes_total(m: Map<Seq<u8>, CommitData>, a: Seq<u8>, b: Seq<u8>)
    ensures
        precedes(m, a, b) || precedes(m, b, a),
{
    lemma_lex_total(a, b);
}

/// The time-descending order is transitive.
pub proof fn lemma_precedes_trans(m: Map<Seq<u8>, CommitData>, a: Seq<u8>, b: Seq<u8>, c: Seq<u8>)
    requires
        precedes(m, a, b),
        precedes(m, b, c),
    ensures
        precedes(m, a, c),
{
    if m[a].seconds == m[b].seconds && m[b].seconds == m[c].seconds {
        lemma_lex_trans(a, b, c);
    }
}

/// Compare two identities lexicographically.
fn lex_le_bytes(a: &Id, b: &Id) -> (r: bool)
    ensures
        r == lex_le(a@, b@),
{
    let na = a.bytes.len();
    let nb = b.bytes.len();
    let mut i: usize = 0;
    proof {
        assert(a@.skip(0) =~= a@);
        assert(b@.skip(0) =~= b@);
    }
    while i < na && i < nb
        invariant
            na == a@.len(),
            nb == b@.len(),
            i <= na,
            i <= nb,
            lex_le(a@, b@) == lex_le(a@.skip(i as int), b@.skip(i as int)),
        decreases na - i,
    {
        proof {
            assert(a@.skip(i as int)[0] == a@[i as int]);
            assert(b@.skip(i as int)[0] == b@[i as int]);
            assert(a@.skip(i as int).drop_first() =~= a@.skip(i as int + 1));
            assert(b@.skip(i as int).drop_first() =~= b@.skip(i as int + 1));
        }
        if a.bytes[i] < b.bytes[i] {
            return true;
        }
        if a.bytes[i] > b.bytes[i] {
            return false;
        }
        i += 1;
    }
    proof {
        if i >= na {
            assert(a@.skip(i as int).len() == 0);
        } else {
            assert(b@.skip(i as int).len() == 0);
            assert(a@.skip(i as int).len() > 0);
        }
    }
    na <= nb
}

/// Compare two commits in the time-descending order.
fn precedes_exec(store: &Table<CommitData>, a: &Id, b: &Id) -> (r: bool)
    requires
        store.wf(),
        store@.contains_key(a@),
        store@.contains_key(b@),
    ensures
        r == precedes(store@, a@, b@),
{
    let da = match store.get(a) {
        Some(d) => d,
        None => unreached(),
    };
    let db = match store.get(b) {
        Some(d) => d,
        None => unreached(),
    };
    if da.seconds > db.seconds {
        true
    } else if da.seconds < db.seconds {
        false
    } else {
        lex_le_bytes(a, b)
    }
}

/// Sort identities into the time-descending order: strictly
/// non-increasing commit time, ties broken by identity bytes. The
/// result holds exactly the given identities, each once.
pub fn sort_time_descending(store: &Table<CommitData>, ids: Vec<Id>) -> (out: Vec<Id>)
    requires
        store.wf(),
        ids_view(ids@).no_duplicates(),
        forall|j: int| 0 <= j < ids@.len() ==> store@.contains_key(#[trigger] ids_view(ids@)[j]),
    ensures
        ids_view(out@).no_duplicates(),
        out@.len() == ids@.len(),
        forall|j: int| 0 <= j < out@.len() ==> store@.contains_key(#[trigger] ids_view(out@)[j]),
        forall|x: Seq<u8>|
            ids_view(out@).contains(x) <==> ids_view(ids@).contains(x),
        forall|i: int, j: int|
            0 <= i < j < out@.len() ==> precedes(store@, ids_view(out@)[i], ids_view(out@)[j]),
{
    let ghost m = store@;
    let ghost all = ids_view(ids@);
    let mut rem = ids;
    let mut out: Vec<Id> = Vec::new();
    while rem.len() > 0
        invariant
            store.wf(),
            m == store@,
            all == ids_view(ids@),
            out@.len() + rem@.len() == all.len(),
            ids_view(out@).no_duplicates(),
            ids_view(rem@).no_duplicates(),
            forall|x: Seq<u8>|
                ids_view(out@).contains(x) ==> !ids_view(rem@).contains(x),
            forall|x: Seq<u8>|
                (ids_view(out@).contains(x) || ids_view(rem@).contains(x)) <==> all.contains(x),
            forall|j: int| 0 <= j < out@.len() ==> m.contains_key(#[trigger] ids_view(out@)[j]),
            forall|j: int| 0 <= j < rem@.len() ==> m.contains_key(#[trigger] ids_view(rem@)[j]),
            forall|i: int, j: int|
                0 <= i < j < out@.len() ==> precedes(m, ids_view(out@)[i], ids_view(out@)[j]),
            forall|i: int, j: int|
                0 <= i < out@.len() && 0 <= j < rem@.len() ==> precedes(
                    m,
                    ids_view(out@)[i],
                    ids_view(rem@)[j],
                ),
        decreases rem@.len(),
    {
        let nr = rem.len();
        let mut best: usize = 0;
        let mut j: usize = 1;
        proof {
            lemma_lex_refl(ids_view(rem@)[0]);
            assert(precedes(m, ids_view(rem@)[0], ids_view(rem@)[0]));
        }
        while j < nr
            invariant
                store.wf(),
                m == store@,
                nr == rem@.len(),
                nr > 0,
                best < j,
                j <= nr,
                forall|k: int| 0 <= k < rem@.len() ==> m.contains_key(#[trigger] ids_view(rem@)[k]),
                forall|k: int|
                    0 <= k < j ==> precedes(m, ids_view(rem@)[best as int], #[trigger] ids_view(
                        rem@,
                    )[k]),
            decreases nr - j,
        {
            proof {
                assert(ids_view(rem@)[best as int] == rem@[best as int]@);
                assert(ids_view(rem@)[j as int] == rem@[j as int]@);
            }
            if !precedes_exec(store, &rem[best], &rem[j]) {
                proof {
                    lemma_precedes_total(m, ids_view(rem@)[best as int], ids_view(rem@)[j as int]);
                    assert forall|k: int| 0 <= k < j implies precedes(
                        m,
                        ids_view(rem@)[j as int],
                        #[trigger] ids_view(rem@)[k],
                    ) by {
                        lemma_precedes_trans(
                            m,
                            ids_view(rem@)[j as int],
                            ids_view(rem@)[best as int],
                            ids_view(rem@)[k],
                        );
                    }
                }
                best = j;
            }
            proof {
                lemma_lex_refl(ids_view(rem@)[best as int]);
            }
            j += 1;
        }
        proof {
            lemma_lex_refl(ids_view(rem@)[best as int]);
        }
        let ghost rem_before = ids_view(rem@);
        let ghost out_before = ids_view(out@);
        let chosen = rem.remove(best);
        out.push(chosen);
        proof {
            assert(ids_view(rem@) =~= rem_before.remove(best as int)) by {
                assert forall|k: int| 0 <= k < rem@.len() implies ids_view(rem@)[k]
                    == rem_before.remove(best as int)[k] by {}
            }
            assert(ids_view(out@) =~= out_before.push(rem_before[best as int]));
            assert forall|x: Seq<u8>| ids_view(rem@).contains(x) implies rem_before.contains(
                x,
            ) && x != rem_before[best as int] by {
                let w = choose|w: int| 0 <= w < ids_view(rem@).len() && ids_view(rem@)[w] == x;
                if w < best {
                    assert(rem_before[w] == x);
                } else {
                    assert(rem_before[w + 1] == x);
                }
            }
            assert forall|x: Seq<u8>|
                rem_before.contains(x) && x != rem_before[best as int] implies ids_view(
                rem@,
            ).contains(x) by {
                let w = choose|w: int| 0 <= w < rem_before.len() && rem_before[w] == x;
                if w < best {
                    assert(ids_view(rem@)[w] == x);
                } else {
                    assert(ids_view(rem@)[w - 1] == x);
                }
            }
            assert forall|x: Seq<u8>| out_before.contains(x) implies ids_view(out@).contains(
                x,
            ) by {
                let w = choose|w: int| 0 <= w < out_before.len() && out_before[w] == x;
                assert(ids_view(out@)[w] == x);
            }
            assert(ids_view(out@)[out_before.len() as int] == rem_before[best as int]);
            assert(all.contains(rem_before[best as int]));
            assert forall|x: Seq<u8>| ids_view(out@).contains(x) implies !ids_view(rem@).contains(
                x,
            ) by {
                let w = choose|w: int| 0 <= w < ids_view(out@).len() && ids_view(out@)[w] == x;
                if w < out_before.len() {
                    assert(out_before[w] == x);
                    assert(out_before.contains(x));
                } else {
                    assert(x == rem_before[best as int]);
                }
            }
        }
    }
    proof {
        assert forall|x: Seq<u8>| all.contains(x) implies ids_view(out@).contains(x) by {
            assert(ids_view(rem@).len() == 0);
            assert(!ids_view(rem@).contains(x));
        }
    }
    out
}

/// A rank function witnessing acyclicity over a set of commits:
/// crossing a parent edge inside the set strictly raises the rank.
pub open spec fn rank_ok(
    m: Map<Seq<u8>, CommitData>,
    s: Set<Seq<u8>>,
    rank: Map<Seq<u8>, nat>,
) -> bool {
    forall|c: Seq<u8>, j: int|
        s.contains(c) && m.contains_key(c) && 0 <= j < parents_view(#[trigger] m[c]).len()
            && s.contains(#[trigger] parents_view(m[c])[j]) ==> rank[parents_view(m[c])[j]]
            > rank[c]
}

/// A set of commits forms a directed acyclic graph under the parent
/// relation: some rank function strictly rises along every parent
/// edge inside it.
pub open spec fn is_dag(m: Map<Seq<u8>, CommitData>, s: Set<Seq<u8>>) -> bool {
    exists|rank: Map<Seq<u8>, nat>| rank_ok(m, s, rank)
}

/// Every child of `c` among `ids` (a commit that has `c` as parent)
/// already stands in `out`.
pub open spec fn kids_emitted(
    m: Map<Seq<u8>, CommitData>,
    ids: Seq<Seq<u8>>,
    out: Seq<Seq<u8>>,
    c: Seq<u8>,
) -> bool {
    forall|k: int|
        0 <= k < ids.len() && m.contains_key(#[trigger] ids[k]) && parents_view(m[ids[k]]).contains(
            c,
        ) ==> out.contains(ids[k])
}

/// A finite, non-empty set has a member of minimal rank.
proof fn lemma_min_rank(s: Set<Seq<u8>>, rank: Map<Seq<u8>, nat>) -> (c: Seq<u8>)
    requires
        s.finite(),
        s.len() > 0,
    ensures
        s.contains(c),
        forall|d: Seq<u8>| s.contains(d) ==> rank[c] <= rank[d],
    decreases s.len(),
{
    broadcast use vstd::set::group_set_axioms, vstd::set_lib::group_set_lib_default;

    let x = s.choose();
    assert(s.contains(x));
    let s2 = s.remove(x);
    if s2.len() == 0 {
        assert(s2 =~= Set::<Seq<u8>>::empty());
        assert forall|d: Seq<u8>| s.contains(d) implies rank[x] <= rank[d] by {
            if d != x {
                assert(s2.contains(d));
            }
        }
        x
    } else {
        let c2 = lemma_min_rank(s2, rank);
        if rank[x] <= rank[c2] {
            assert forall|d: Seq<u8>| s.contains(d) implies rank[x] <= rank[d] by {
                if d != x {
                    assert(s2.contains(d));
                }
            }
            x
        } else {
            assert forall|d: Seq<u8>| s.contains(d) implies rank[c2] <= rank[d] by {
                if d != x {
                    assert(s2.contains(d));
                }
            }
            c2
        }
    }
}

/// While a topological emission is incomplete over an acyclic set,
/// some identity is still unemitted with all of its children emitted.
proof fn lemma_topo_progress(
    m: Map<Seq<u8>, CommitData>,
    ids: Seq<Seq<u8>>,
    out: Seq<Seq<u8>>,
    rank: Map<Seq<u8>, nat>,
)
    requires
        rank_ok(m, ids.to_set(), rank),
        ids.no_duplicates(),
        out.no_duplicates(),
        forall|x: Seq<u8>| out.contains(x) ==> ids.contains(x),
        out.len() < ids.len(),
    ensures
        exists|k: int|
            0 <= k < ids.len() && !out.contains(#[trigger] ids[k]) && kids_emitted(m, ids, out, ids[k]),
{
    broadcast use vstd::set::group_set_axioms, vstd::set_lib::group_set_lib_default;

    ids.unique_seq_to_set();
    out.unique_seq_to_set();
    let s = Set::new(|x: Seq<u8>| ids.to_set().contains(x) && !out.to_set().contains(x));
    assert(s.subset_of(ids.to_set()));
    vstd::set_lib::lemma_len_subset(s, ids.to_set());
    assert(s.len() > 0) by {
        if s.len() == 0 {
            assert(s =~= Set::<Seq<u8>>::empty());
            assert(out.to_set().len() < ids.to_set().len());
            assert(ids.to_set().subset_of(out.to_set())) by {
                assert forall|x: Seq<u8>| ids.to_set().contains(x) implies out.to_set().contains(
                    x,
                ) by {
                    assert(!s.contains(x));
                }
            }
            vstd::set_lib::lemma_len_subset(ids.to_set(), out.to_set());
        }
    }
    let c = lemma_min_rank(s, rank);
    assert(ids.to_set().contains(c));
    let k = choose|k: int| 0 <= k < ids.len() && ids[k] == c;
    assert(!out.contains(ids[k]));
    assert(kids_emitted(m, ids, out, c)) by {
        assert forall|kk: int|
            0 <= kk < ids.len() && m.contains_key(#[trigger] ids[kk]) && parents_view(
                m[ids[kk]],
            ).contains(c) implies out.contains(ids[kk]) by {
            let jj = choose|jj: int|
                0 <= jj < parents_view(m[ids[kk]]).len() && parents_view(m[ids[kk]])[jj] == c;
            assert(ids.to_set().contains(ids[kk]));
            if !out.contains(ids[kk]) {
                assert(s.contains(ids[kk]));
                assert(rank[c] > rank[ids[kk]]);
                assert(rank[c] <= rank[ids[kk]]);
            }
        }
    }
}

/// Whether an identity's children among `ids` are all in `out`.
fn kids_emitted_exec(store: &Table<CommitData>, ids: &Vec<Id>, out: &Vec<Id>, c: &Id) -> (r: bool)
    requires
        store.wf(),
        forall|j: int| 0 <= j < ids@.len() ==> store@.contains_key(#[trigger] ids_view(ids@)[j]),
    ensures
        r == kids_emitted(store@, ids_view(ids@), ids_view(out@), c@),
{
    let ghost m = store@;
    let n = ids.len();
    let mut k: usize = 0;
    while k < n
        invariant
            store.wf(),
            m == store@,
            n == ids@.len(),
            k <= n,
            forall|j: int| 0 <= j < ids@.len() ==> m.contains_key(#[trigger] ids_view(ids@)[j]),
            forall|j: int|
                0 <= j < k && m.contains_key(#[trigger] ids_view(ids@)[j]) && parents_view(
                    m[ids_view(ids@)[j]],
                ).contains(c@) ==> ids_view(out@).contains(ids_view(ids@)[j]),
        decreases n - k,
    {
        proof {
            assert(ids_view(ids@)[k as int] == ids@[k as int]@);
        }
        let data = match store.get(&ids[k]) {
            Some(d) => d,
            None => unreached(),
        };
        if contains_id(&data.parents, c) {
            proof {
                assert(parents_view(m[ids_view(ids@)[k as int]]) == ids_view(data.parents@));
            }
            if !contains_id(out, &ids[k]) {
                return false;
            }
        } else {
            proof {
                assert(!parents_view(m[ids_view(ids@)[k as int]]).contains(c@));
            }
        }
        k += 1;
    }
    true
}

/// Find the first identity not yet emitted whose children are all
/// emitted, if any.
fn find_emittable(store: &Table<CommitData>, ids: &Vec<Id>, out: &Vec<Id>) -> (r: Option<usize>)
    requires
        store.wf(),
        forall|j: int| 0 <= j < ids@.len() ==> store@.contains_key(#[trigger] ids_view(ids@)[j]),
    ensures
        match r {
            Some(k) => k < ids@.len() && !ids_view(out@).contains(ids_view(ids@)[k as int])
                && kids_emitted(store@, ids_view(ids@), ids_view(out@), ids_view(ids@)[k as int]),
            None => forall|k: int|
                0 <= k < ids@.len() ==> ids_view(out@).contains(#[trigger] ids_view(ids@)[k])
                    || !kids_emitted(store@, ids_view(ids@), ids_view(out@), ids_view(ids@)[k]),
        },
{
    let n = ids.len();
    let mut k: usize = 0;
    while k < n
        invariant
            store.wf(),
            n == ids@.len(),
            k <= n,
            forall|j: int| 0 <= j < ids@.len() ==> store@.contains_key(#[trigger] ids_view(ids@)[j]),
            forall|j: int|
                0 <= j < k ==> ids_view(out@).contains(#[trigger] ids_view(ids@)[j])
                    || !kids_emitted(store@, ids_view(ids@), ids_view(out@), ids_view(ids@)[j]),
        decreases n - k,
    {
        proof {
            assert(ids_view(ids@)[k as int] == ids@[k as int]@);
        }
        if !contains_id(out, &ids[k]) && kids_emitted_exec(store, ids, out, &ids[k]) {
            return Some(k);
        }
        k += 1;
    }
    None
}

/// Order identities topologically: an identity is emitted only after
/// every commit among the given ones that has it as a parent. Always
/// yields a subsequence of the given identities meeting that order;
/// when they form a directed acyclic graph it yields all of them.
pub fn sort_topological(store: &Table<CommitData>, ids: Vec<Id>) -> (out: Vec<Id>)
    requires
        store.wf(),
        ids_view(ids@).no_duplicates(),
        forall|j: int| 0 <= j < ids@.len() ==> store@.contains_key(#[trigger] ids_view(ids@)[j]),
    ensures
        ids_view(out@).no_duplicates(),
        forall|j: int| 0 <= j < out@.len() ==> store@.contains_key(#[trigger] ids_view(out@)[j]),
        forall|x: Seq<u8>| ids_view(out@).contains(x) ==> ids_view(ids@).contains(x),
        forall|i: int, j: int|
            0 <= i <= j < out@.len() ==> !parents_view(store@[ids_view(out@)[j]]).contains(
                ids_view(out@)[i],
            ),
        is_dag(store@, ids_view(ids@).to_set()) ==> out@.len() == ids@.len() && (forall|x: Seq<u8>|
            ids_view(ids@).contains(x) ==> ids_view(out@).contains(x)),
{
    let ghost m = store@;
    let ghost idsv = ids_view(ids@);
    let n = ids.len();
    let mut out: Vec<Id> = Vec::new();
    let mut stalled = false;
    while !stalled && out.len() < n
        invariant
            store.wf(),
            m == store@,
            idsv == ids_view(ids@),
            n == ids@.len(),
            out@.len() <= n,
            forall|j: int| 0 <= j < ids@.len() ==> m.contains_key(#[trigger] ids_view(ids@)[j]),
            ids_view(out@).no_duplicates(),
            forall|x: Seq<u8>| ids_view(out@).contains(x) ==> idsv.contains(x),
            forall|j: int| 0 <= j < out@.len() ==> m.contains_key(#[trigger] ids_view(out@)[j]),
            forall|l: int|
                0 <= l < out@.len() ==> kids_emitted(
                    m,
                    idsv,
                    ids_view(out@).take(l),
                    #[trigger] ids_view(out@)[l],
                ),
            stalled ==> out@.len() < n && (forall|k: int|
                0 <= k < idsv.len() ==> ids_view(out@).contains(#[trigger] idsv[k])
                    || !kids_emitted(m, idsv, ids_view(out@), idsv[k])),
        decreases n - out@.len(), (if stalled { 0int } else { 1int }),
    {
        match find_emittable(store, &ids, &out) {
            Some(k) => {
                let ghost before = ids_view(out@);
                proof {
                    assert(ids_view(ids@)[k as int] == ids@[k as int]@);
                }
                out.push(ids[k].duplicate());
                proof {
                    assert(ids_view(out@) =~= before.push(idsv[k as int]));
                    assert(forall|j: int|
                        0 <= j < before.len() ==> ids_view(out@)[j] == before[j]);
                    assert forall|y: Seq<u8>| before.contains(y) implies ids_view(out@).contains(
                        y,
                    ) by {
                        let w = choose|w: int| 0 <= w < before.len() && before[w] == y;
                        assert(ids_view(out@)[w] == y);
                    }
                    assert(ids_view(out@)[before.len() as int] == idsv[k as int]);
                    assert(ids_view(out@).take(before.len() as int) =~= before);
                    assert forall|l: int| 0 <= l < out@.len() implies kids_emitted(
                        m,
                        idsv,
                        ids_view(out@).take(l),
                        #[trigger] ids_view(out@)[l],
                    ) by {
                        assert(ids_view(out@).take(l) =~= before.take(l));
                        if l < before.len() {
                            assert(kids_emitted(m, idsv, before.take(l), before[l]));
                        } else {
                            assert(ids_view(out@)[l] == idsv[k as int]);
                            assert(ids_view(out@).take(l) =~= before);
                        }
                    }
                }
            },
            None => {
                stalled = true;
            },
        }
    }
    proof {
        // The emitted order never places a parent before one of its
        // children.
        assert forall|i: int, j: int| 0 <= i <= j < out@.len() implies !parents_view(
            m[ids_view(out@)[j]],
        ).contains(ids_view(out@)[i]) by {
            if parents_view(m[ids_view(out@)[j]]).contains(ids_view(out@)[i]) {
                let outv = ids_view(out@);
                assert(idsv.contains(outv[j]));
                let kk = choose|kk: int| 0 <= kk < idsv.len() && idsv[kk] == outv[j];
                assert(kids_emitted(m, idsv, outv.take(i), outv[i]));
                assert(outv.take(i).contains(idsv[kk]));
                let l2 = choose|l2: int| 0 <= l2 < i && outv.take(i)[l2] == outv[j];
                assert(outv[l2] == outv[j]);
            }
        }
        // On an acyclic set the emission cannot stall, so everything
        // was emitted.
        if is_dag(m, idsv.to_set()) && out@.len() < n {
            let rank = choose|rank: Map<Seq<u8>, nat>| rank_ok(m, idsv.to_set(), rank);
            lemma_topo_progress(m, idsv, ids_view(out@), rank);
            let kk = choose|kk: int|
                0 <= kk < idsv.len() && !ids_view(out@).contains(#[trigger] idsv[kk])
                    && kids_emitted(m, idsv, ids_view(out@), idsv[kk]);
            assert(ids_view(out@).contains(idsv[kk]) || !kids_emitted(
                m,
                idsv,
                ids_view(out@),
                idsv[kk],
            ));
            assert(false);
        }
        if out@.len() == n {
            broadcast use vstd::set::group_set_axioms, vstd::set_lib::group_set_lib_default;

            let outv = ids_view(out@);
            outv.unique_seq_to_set();
            idsv.unique_seq_to_set();
            assert(outv.to_set().subset_of(idsv.to_set())) by {
                assert forall|x: Seq<u8>| outv.to_set().contains(x) implies idsv.to_set().contains(
                    x,
                ) by {
                    assert(outv.contains(x));
                }
            }
            assert forall|x: Seq<u8>| idsv.contains(x) implies outv.contains(x) by {
                if !outv.to_set().contains(x) {
                    assert(outv.to_set().subset_of(idsv.to_set().remove(x)));
                    vstd::set_lib::lemma_len_subset(outv.to_set(), idsv.to_set().remove(x));
                }
            }
        }
    }
    out
}

/// Every identity the start reaches.
pub open spec fn reach_set(m: Map<Seq<u8>, CommitData>, start: Seq<u8>) -> Set<Seq<u8>> {
    Set::new(|c: Seq<u8>| reaches(m, start, c))
}

/// The position of an identity in a duplicate-free sequence.
pub open spec fn pos_of(v: Seq<Seq<u8>>, x: Seq<u8>) -> int {
    choose|i: int| 0 <= i < v.len() && v[i] == x
}

/// Every prefix of a chain is itself a chain, so every element of a
/// chain from the start is reachable.
proof fn lemma_chain_elements_reach(m: Map<Seq<u8>, CommitData>, p: Seq<Seq<u8>>, l: int)
    requires
        is_chain(m, p),
        0 <= l < p.len(),
    ensures
        reaches(m, p[0], p[l]),
{
    let q = p.take(l + 1);
    assert forall|k: int| 0 <= k < q.len() - 1 implies m.contains_key(#[trigger] q[k])
        && parents_view(m[q[k]]).contains(q[k + 1]) by {
        assert(q[k] == p[k] && q[k + 1] == p[k + 1]);
    }
    assert(is_chain(m, q) && q[0] == p[0] && q.last() == p[l]);
}

/// In a sequence that never places an identity before a commit having
/// it as parent, positions strictly rise along any parent chain whose
/// elements all occur in the sequence.
proof fn lemma_chain_positions(m: Map<Seq<u8>, CommitData>, v: Seq<Seq<u8>>, p: Seq<Seq<u8>>)
    requires
        v.no_duplicates(),
        forall|i: int, j: int|
            #![trigger v[i], v[j]]
            0 <= i <= j < v.len() ==> !parents_view(m[v[j]]).contains(v[i]),
        is_chain(m, p),
        forall|l: int| 0 <= l < p.len() ==> v.contains(#[trigger] p[l]),
    ensures
        0 <= pos_of(v, p[0]) < v.len(),
        0 <= pos_of(v, p.last()) < v.len(),
        pos_of(v, p[0]) + p.len() - 1 <= pos_of(v, p.last()),
    decreases p.len(),
{
    assert(v.contains(p[0]));
    assert(v.contains(p.last()));
    let i0 = pos_of(v, p[0]);
    assert(0 <= i0 < v.len() && v[i0] == p[0]);
    let il = pos_of(v, p.last());
    assert(0 <= il < v.len() && v[il] == p.last());
    if p.len() > 1 {
        assert(m.contains_key(p[0]) && parents_view(m[p[0]]).contains(p[1]));
        assert(v.contains(p[1]));
        let i1 = pos_of(v, p[1]);
        assert(0 <= i1 < v.len() && v[i1] == p[1]);
        assert(i1 > i0) by {
            if i1 <= i0 {
                assert(!parents_view(m[v[i0]]).contains(v[i1]));
            }
        }
        let rest = p.drop_first();
        assert forall|k: int| 0 <= k < rest.len() - 1 implies m.contains_key(#[trigger] rest[k])
            && parents_view(m[rest[k]]).contains(rest[k + 1]) by {
            assert(rest[k] == p[k + 1] && rest[k + 1] == p[k + 2]);
        }
        assert(is_chain(m, rest));
        assert forall|l: int| 0 <= l < rest.len() implies v.contains(#[trigger] rest[l]) by {
            assert(rest[l] == p[l + 1]);
        }
        lemma_chain_positions(m, v, rest);
        assert(rest[0] == p[1] && rest.last() == p.last());
    }
}

/// What a finished ancestry traversal guarantees: distinct reachable
/// commits the store resolves, and the selected order's law — time
/// descending yields every reachable commit with commit times
/// non-increasing (ties broken by identity bytes); topological never
/// yields a commit before one of its children, and yields every
/// reachable commit whenever the ancestry is acyclic.
pub open spec fn valid_ancestry(
    m: Map<Seq<u8>, CommitData>,
    start: Seq<u8>,
    order: AncestryOrder,
    v: Seq<Seq<u8>>,
) -> bool {
    &&& v.no_duplicates()
    &&& forall|j: int| 0 <= j < v.len() ==> m.contains_key(#[trigger] v[j])
    &&& forall|j: int| 0 <= j < v.len() ==> reaches(m, start, #[trigger] v[j])
    &&& (order is TimeDescending ==> {
        &&& forall|c: Seq<u8>| reaches(m, start, c) ==> v.contains(c)
        &&& v.len() >= 1
        &&& forall|i: int, j: int| 0 <= i < j < v.len() ==> precedes(m, v[i], v[j])
        &&& forall|i: int|
            0 <= i < v.len() - 1 ==> m[#[trigger] v[i]].seconds >= m[v[i + 1]].seconds
        &&& ((forall|c: Seq<u8>|
            #[trigger] reaches(m, start, c) && c != start ==> m[c].seconds < m[start].seconds)
            ==> v[0] == start)
    })
    &&& (order is Topological ==> {
        &&& forall|i: int, j: int|
            #![trigger v[i], v[j]]
            0 <= i <= j < v.len() ==> !parents_view(m[v[j]]).contains(v[i])
        &&& (is_dag(m, reach_set(m, start)) ==> (forall|c: Seq<u8>|
            reaches(m, start, c) ==> v.contains(c)) && v.len() >= 1 && v[0] == start)
    })
}

/// Produce the ancestry of the start commit in the selected order:
/// the start and every commit reachable from it over parent edges,
/// each exactly once. Fails with the missing identity exactly when a
/// reachable commit cannot be resolved.
pub fn ancestors(store: &Table<CommitData>, start: &Id, order: AncestryOrder) -> (r: Result<
    Vec<Id>,
    ObjectAccessError,
>)
    requires
        store.wf(),
    ensures
        match r {
            Ok(v) => valid_ancestry(store@, start@, order, ids_view(v@)),
            Err(e) => reaches(store@, start@, e.missing@) && !store@.contains_key(e.missing@),
        },
{
    let ghost m = store@;
    let base = match reachable_commits(store, start) {
        Ok(v) => v,
        Err(e) => {
            return Err(e);
        },
    };
    let ghost basev = ids_view(base@);
    match order {
        AncestryOrder::TimeDescending => {
            let out = sort_time_descending(store, base);
            proof {
                let outv = ids_view(out@);
                assert forall|j: int| 0 <= j < outv.len() implies reaches(
                    m,
                    start@,
                    #[trigger] outv[j],
                ) by {
                    assert(outv.contains(outv[j]));
                    assert(basev.contains(outv[j]));
                    let w = choose|w: int| 0 <= w < basev.len() && basev[w] == outv[j];
                }
                assert forall|c: Seq<u8>| reaches(m, start@, c) implies outv.contains(c) by {
                    assert(basev.to_set().contains(c));
                    assert(basev.contains(c));
                }
                assert(reaches(m, start@, start@)) by {
                    lemma_reaches_self(m, start@);
                }
                assert(outv.len() >= 1);
                assert forall|i: int| 0 <= i < outv.len() - 1 implies m[#[trigger] outv[i]].seconds
                    >= m[outv[i + 1]].seconds by {
                    assert(precedes(m, outv[i], outv[i + 1]));
                }
                // When the start is strictly the newest reachable
                // commit it sorts first.
                if (forall|c: Seq<u8>|
                    #[trigger] reaches(m, start@, c) && c != start@ ==> m[c].seconds
                        < m[start@].seconds) && outv[0] != start@ {
                    assert(outv.contains(start@));
                    let k = choose|k: int| 0 <= k < outv.len() && outv[k] == start@;
                    assert(k != 0);
                    assert(precedes(m, outv[0], outv[k]));
                    assert(reaches(m, start@, outv[0]));
                    assert(m[outv[0]].seconds < m[start@].seconds);
                    assert(false);
                }
            }
            Ok(out)
        },
        AncestryOrder::Topological => {
            let out = sort_topological(store, base);
            proof {
                let outv = ids_view(out@);
                assert forall|j: int| 0 <= j < outv.len() implies reaches(
                    m,
                    start@,
                    #[trigger] outv[j],
                ) by {
                    assert(outv.contains(outv[j]));
                    assert(basev.contains(outv[j]));
                    let w = choose|w: int| 0 <= w < basev.len() && basev[w] == outv[j];
                }
                if is_dag(m, reach_set(m, start@)) {
                    assert(reach_set(m, start@) =~= basev.to_set()) by {
                        assert forall|c: Seq<u8>| basev.to_set().contains(c) implies reach_set(
                            m,
                            start@,
                        ).contains(c) by {
                            let w = choose|w: int| 0 <= w < basev.len() && basev[w] == c;
                        }
                    }
                    assert(is_dag(m, basev.to_set()));
                    assert forall|c: Seq<u8>| reaches(m, start@, c) implies outv.contains(c) by {
                        assert(basev.to_set().contains(c));
                        assert(basev.contains(c));
                    }
                    // The start is the first commit out: no other
                    // reachable commit may precede it, because a
                    // chain from the start only moves to strictly
                    // later positions.
                    assert(reaches(m, start@, start@)) by {
                        lemma_reaches_self(m, start@);
                    }
                    assert(outv.contains(start@));
                    assert(outv.len() >= 1);
                    if outv[0] != start@ {
                        assert(reaches(m, start@, outv[0]));
                        let p = choose|p: Seq<Seq<u8>>|
                            is_chain(m, p) && p[0] == start@ && p.last() == outv[0];
                        assert(p.len() >= 2) by {
                            if p.len() == 1 {
                                assert(p.last() == p[0]);
                            }
                        }
                        assert forall|l: int| 0 <= l < p.len() implies outv.contains(
                            #[trigger] p[l],
                        ) by {
                            lemma_chain_elements_reach(m, p, l);
                        }
                        lemma_chain_positions(m, outv, p);
                        let il = pos_of(outv, p.last());
                        assert(0 <= il < outv.len() && outv[il] == outv[0]);
                        assert(il == 0);
                        assert(pos_of(outv, p[0]) + p.len() - 1 <= 0);
                        assert(false);
                    }
                }
            }
            Ok(out)
        },
    }
}

} // verus!
