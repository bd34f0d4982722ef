//! Attaching tracks to the detections of a frame: finding the object
//! detection a tracker's detection index designates among the frame's
//! analytics metadata, and numbering the tracks a tracker names by UUID.
use std::collections::HashMap;
use vstd::prelude::*;

verus! {

broadcast use vstd::std_specs::hash::group_hash_axioms;

/// How many entries of `s` are `true`.
pub open spec fn count_true(s: Seq<bool>) -> nat
    decreases s.len(),
{
    if s.len() == 0 {
        0
    } else {
        count_true(s.drop_last()) + if s.last() { 1nat } else { 0nat }
    }
}

/// How many detections with a location the first `m` metadata hold.
pub open spec fn count_rows(v: Seq<Seq<bool>>, m: int) -> nat
    decreases m,
{
    if m <= 0 {
        0
    } else {
        count_rows(v, m - 1) + count_true(v[m - 1])
    }
}

/// The tracker's index of detection `p` of metadata `m`: how many
/// detections with a location come before it, metadata after metadata.
pub open spec fn rank(v: Seq<Seq<bool>>, m: int, p: int) -> nat {
    count_rows(v, m) + count_true(v[m].take(p))
}

/// Whether detection `p` of metadata `m` exists and has a location.
pub open spec fn has_location(v: Seq<Seq<bool>>, m: int, p: int) -> bool {
    0 <= m < v.len() && 0 <= p < v[m].len() && v[m][p]
}

/// The rows of a matrix of flags.
pub open spec fn flag_rows(v: Seq<Vec<bool>>) -> Seq<Seq<bool>> {
    v.map_values(|r: Vec<bool>| r@)
}

proof fn lemma_count_take_step(s: Seq<bool>, p: int)
    requires
        0 <= p < s.len(),
    ensures
        count_true(s.take(p + 1)) == count_true(s.take(p)) + if s[p] { 1nat } else { 0nat },
{
    assert(s.take(p + 1).drop_last() =~= s.take(p));
}

proof fn lemma_count_take_mono(s: Seq<bool>, p: int, q: int)
    requires
        0 <= p <= q <= s.len(),
    ensures
        count_true(s.take(p)) <= count_true(s.take(q)),
    decreases q - p,
{
    if p < q {
        lemma_count_take_mono(s, p, q - 1);
        lemma_count_take_step(s, q - 1);
    }
}

proof fn lemma_rows_mono(v: Seq<Seq<bool>>, a: int, b: int)
    requires
        0 <= a <= b,
    ensures
        count_rows(v, a) <= count_rows(v, b),
    decreases b - a,
{
    if a < b {
        lemma_rows_mono(v, a, b - 1);
    }
}

/// A located detection's index lies among those of its metadata.
proof fn lemma_rank_bounds(v: Seq<Seq<bool>>, m: int, p: int)
    requires
        has_location(v, m, p),
    ensures
        count_rows(v, m) <= rank(v, m, p) < count_rows(v, m + 1),
{
    lemma_count_take_step(v[m], p);
    lemma_count_take_mono(v[m], p + 1, v[m].len() as int);
    assert(v[m].take(v[m].len() as int) =~= v[m]);
}

/// Whether `(m, p)` is what the metadata walk finds for `idx`: the located
/// detection of index `idx`, provided it is not the first located detection
/// of a metadata after the first (the walk leaves a metadata once it has
/// counted `idx` detections, before looking at the next one).
pub open spec fn walk_finds(v: Seq<Seq<bool>>, idx: nat, m: int, p: int) -> bool {
    &&& has_location(v, m, p)
    &&& rank(v, m, p) == idx
    &&& (m == 0 || count_rows(v, m) < idx)
}

/// Finds the object detection that the tracker's detection `idx` stands
/// for. The tracker numbered the detections that have a location,
/// metadata after metadata; `with_location[m][p]` tells whether detection `p` of
/// metadata `m` has one. Gives the metadata and the position in it.
///
/// The walk stops looking once it has counted `idx` detections at the end
/// of a metadata, so a detection that is the first located one of a later
/// metadata is not found.
pub fn locate_detection(with_location: &Vec<Vec<bool>>, idx: usize) -> (r: Option<(usize, usize)>)
    ensures
        r matches Some((m, p)) ==> walk_finds(flag_rows(with_location@), idx as nat, m as int, p as int),
        r is None ==> forall|m: int, p: int| !walk_finds(flag_rows(with_location@), idx as nat, m, p),
{
    let ghost v = flag_rows(with_location@);
    let mut m: usize = 0;
    let mut total: usize = 0;
    while m < with_location.len()
        invariant
            v == flag_rows(with_location@),
            m <= with_location.len(),
            total == count_rows(v, m as int),
            total <= idx,
            m > 0 ==> total < idx,
        decreases with_location.len() - m,
    {
        let row = &with_location[m];
        assert(v[m as int] == row@);
        let mut p: usize = 0;
        while p < row.len()
            invariant
                v == flag_rows(with_location@),
                m < with_location.len(),
                v[m as int] == row@,
                p <= row.len(),
                total == count_rows(v, m as int) + count_true(row@.take(p as int)),
                total <= idx,
                m > 0 ==> count_rows(v, m as int) < idx,
            decreases row.len() - p,
        {
            proof {
                lemma_count_take_step(row@, p as int);
            }
            if row[p] {
                if total == idx {
                    return Some((m, p));
                }
                total = total + 1;
            }
            p = p + 1;
        }
        proof {
            assert(row@.take(row.len() as int) =~= row@);
        }
        if total >= idx {
            proof {
                assert forall|m2: int, p2: int| !walk_finds(v, idx as nat, m2, p2) by {
                    if has_location(v, m2, p2) {
                        lemma_rank_bounds(v, m2, p2);
                        if m2 <= m {
                            lemma_rows_mono(v, m2 + 1, m as int + 1);
                        } else {
                            lemma_rows_mono(v, m as int + 1, m2);
                        }
                    }
                }
            }
            return None;
        }
        m = m + 1;
    }
    proof {
        assert forall|m2: int, p2: int| !walk_finds(v, idx as nat, m2, p2) by {
            if has_location(v, m2, p2) {
                lemma_rank_bounds(v, m2, p2);
                lemma_rows_mono(v, m2 + 1, m as int);
            }
        }
    }
    None
}

/// Numbers the tracks of a tracker that names them by UUID: each UUID gets
/// the next number the first time it is seen, and keeps it.
#[derive(Debug)]
pub struct TrackIds {
    ids: HashMap<u128, u64>,
    next_id: u64,
}

impl TrackIds {
    /// The number given to each UUID seen.
    pub closed spec fn numbering(&self) -> Map<u128, u64> {
        self.ids@
    }

    /// The number the next new UUID gets.
    pub closed spec fn next(&self) -> u64 {
        self.next_id
    }

    /// The numbering is well formed: the numbers given are below the next
    /// one and no two UUIDs share one.
    pub open spec fn wf(&self) -> bool {
        &&& forall|u: u128| #[trigger] self.numbering().contains_key(u) ==> self.numbering()[u] < self.next()
        &&& forall|u: u128, w: u128|
            #[trigger] self.numbering().contains_key(u) && #[trigger] self.numbering().contains_key(w) && u != w
                ==> self.numbering()[u] != self.numbering()[w]
    }

    /// A numbering that has seen no UUID and starts at zero.
    pub fn new() -> (r: Self)
        ensures
            r.wf(),
            r.numbering() == Map::<u128, u64>::empty(),
            r.next() == 0,
    {
        TrackIds { ids: HashMap::new(), next_id: 0 }
    }

    /// The number of a track: the one it already has, or the next one.
    pub fn id_for(&mut self, uuid: u128) -> (r: u64)
        requires
            old(self).wf(),
            old(self).next() < u64::MAX,
        ensures
            final(self).wf(),
            old(self).numbering().contains_key(uuid) ==> r == old(self).numbering()[uuid]
                && final(self).numbering() == old(self).numbering() && final(self).next() == old(self).next(),
            !old(self).numbering().contains_key(uuid) ==> r == old(self).next() && final(self).numbering()
                == old(self).numbering().insert(uuid, r) && final(self).next() == old(self).next() + 1,
    {
        match self.ids.get(&uuid) {
            Some(id) => *id,
            None => {
                let id = self.next_id;
                let ghost before = self.ids@;
                self.ids.insert(uuid, id);
                self.next_id = id + 1;
                proof {
                    let after = self.ids@;
                    assert(after == before.insert(uuid, id));
                    assert(before == old(self).numbering());
                    assert(!before.contains_key(uuid));
                    assert forall|u: u128| #[trigger] after.contains_key(u) implies after[u] < self.next_id by {
                        if u != uuid {
                            assert(before.contains_key(u));
                        }
                    }
                    assert forall|u: u128, w: u128|
                        #[trigger] after.contains_key(u) && #[trigger] after.contains_key(w) && u != w implies after[u]
                        != after[w] by {
                        if u != uuid && w != uuid {
                            assert(before.contains_key(u) && before.contains_key(w));
                        } else if u == uuid {
                            assert(before.contains_key(w));
                        } else {
                            assert(before.contains_key(u));
                        }
                    }
                }
                id
            },
        }
    }
}

/// How many distinct UUIDs `us` holds.
pub open spec fn distinct_count(us: Seq<u128>) -> nat
    decreases us.len(),
{
    if us.len() == 0 {
        0
    } else {
        distinct_count(us.drop_last()) + if us.drop_last().contains(us.last()) {
            0nat
        } else {
            1nat
        }
    }
}

/// Whether `runs` follows a numbering from its start through the calls
/// `id_for(us[i])`, which gave `rs[i]`: `runs[i]` is the numbering before
/// call `i`.
pub open spec fn numbering_run(runs: Seq<TrackIds>, us: Seq<u128>, rs: Seq<u64>) -> bool {
    &&& runs.len() == us.len() + 1
    &&& rs.len() == us.len()
    &&& runs[0].numbering() == Map::<u128, u64>::empty()
    &&& runs[0].next() == 0
    &&& forall|i: int|
        #![trigger runs[i], us[i]]
        0 <= i < us.len() ==> {
            &&& runs[i].numbering().contains_key(us[i]) ==> rs[i] == runs[i].numbering()[us[i]] && runs[i
                + 1].numbering() == runs[i].numbering() && runs[i + 1].next() == runs[i].next()
            &&& !runs[i].numbering().contains_key(us[i]) ==> rs[i] == runs[i].next() && runs[i + 1].numbering()
                == runs[i].numbering().insert(us[i], rs[i]) && runs[i + 1].next() == runs[i].next() + 1
        }
}

proof fn lemma_numbering_prefix(runs: Seq<TrackIds>, us: Seq<u128>, rs: Seq<u64>, i: int)
    requires
        numbering_run(runs, us, rs),
        0 <= i <= us.len(),
    ensures
        runs[i].wf(),
        forall|u: u128|
            #![trigger runs[i].numbering().contains_key(u)]
            #![trigger us.take(i).contains(u)]
            runs[i].numbering().contains_key(u) <==> us.take(i).contains(u),
        runs[i].next() == distinct_count(us.take(i)),
        forall|j: int| 0 <= j < i ==> runs[i].numbering()[#[trigger] us[j]] == rs[j],
    decreases i,
{
    if i == 0 {
        assert(us.take(0) =~= Seq::<u128>::empty());
        assert forall|u: u128| runs[0].numbering().contains_key(u) <==> us.take(0).contains(u) by {}
    } else {
        let k = i - 1;
        lemma_numbering_prefix(runs, us, rs, k);
        let before = runs[k].numbering();
        let after = runs[i].numbering();
        let u0 = us[k];
        assert(runs[k] == runs[k] && us[k] == u0);
        assert(us.take(i) =~= us.take(k).push(u0));
        assert(us.take(i).drop_last() =~= us.take(k));
        assert forall|u: u128| after.contains_key(u) <==> us.take(i).contains(u) by {
            if us.take(i).contains(u) && u != u0 {
                let p = choose|p: int| 0 <= p < us.take(i).len() && us.take(i)[p] == u;
                assert(us.take(k)[p] == u);
            }
            if us.take(k).contains(u) {
                let p = choose|p: int| 0 <= p < us.take(k).len() && us.take(k)[p] == u;
                assert(us.take(i)[p] == u);
            }
            assert(us.take(i)[k] == u0);
        }
        assert forall|j: int| 0 <= j < i implies after[#[trigger] us[j]] == rs[j] by {
            if j < k {
                assert(us.take(k)[j] == us[j]);
                assert(us.take(k).contains(us[j]));
                assert(before.contains_key(us[j]));
            }
        }
        if !before.contains_key(u0) {
            assert forall|u: u128| #[trigger] after.contains_key(u) implies after[u] < runs[i].next() by {
                if u != u0 {
                    assert(before.contains_key(u));
                }
            }
            assert forall|u: u128, w: u128|
                #[trigger] after.contains_key(u) && #[trigger] after.contains_key(w) && u != w implies after[u]
                != after[w] by {
                if u != u0 && w != u0 {
                    assert(before.contains_key(u) && before.contains_key(w));
                } else if u == u0 {
                    assert(before.contains_key(w));
                } else {
                    assert(before.contains_key(u));
                }
            }
        }
    }
}

/// Over a run of calls from a fresh numbering, a UUID seen before gets the
/// number it got then, two different UUIDs never get one number, and each
/// UUID seen for the first time gets the count of distinct UUIDs before it:
/// the numbers 0, 1, 2, ... in the order the UUIDs are first seen.
pub proof fn lemma_numbering_run(runs: Seq<TrackIds>, us: Seq<u128>, rs: Seq<u64>)
    requires
        numbering_run(runs, us, rs),
    ensures
        forall|j: int, i: int| 0 <= j < i < us.len() && us[i] == us[j] ==> #[trigger] rs[i] == #[trigger] rs[j],
        forall|j: int, i: int| 0 <= j < us.len() && 0 <= i < us.len() && us[i] != us[j] ==> #[trigger] rs[i] != #[trigger] rs[j],
        forall|i: int| 0 <= i < us.len() && !us.take(i).contains(us[i]) ==> #[trigger] rs[i] == distinct_count(us.take(i)),
        runs[us.len() as int].next() == distinct_count(us),
{
    let n = us.len() as int;
    lemma_numbering_prefix(runs, us, rs, n);
    assert(us.take(n) =~= us);
    assert forall|j: int, i: int| 0 <= j < i < us.len() && us[i] == us[j] implies #[trigger] rs[i] == #[trigger] rs[j] by {
        lemma_numbering_prefix(runs, us, rs, i);
        assert(us.take(i)[j] == us[j]);
        assert(runs[i] == runs[i] && us[i] == us[i]);
    }
    assert forall|j: int, i: int| 0 <= j < us.len() && 0 <= i < us.len() && us[i] != us[j] implies #[trigger] rs[i]
        != #[trigger] rs[j] by {
        assert(us.take(n)[i] == us[i] && us.take(n)[j] == us[j]);
        assert(us.take(n).contains(us[i]) && us.take(n).contains(us[j]));
        assert(runs[n].numbering().contains_key(us[i]) && runs[n].numbering().contains_key(us[j]));
    }
    assert forall|i: int| 0 <= i < us.len() && !us.take(i).contains(us[i]) implies #[trigger] rs[i] == distinct_count(
        us.take(i),
    ) by {
        lemma_numbering_prefix(runs, us, rs, i);
        assert(runs[i] == runs[i] && us[i] == us[i]);
    }
}

/// Two tracks with different UUIDs never share a number.
pub proof fn lemma_track_ids_distinct(t: TrackIds, u: u128, w: u128)
    requires
        t.wf(),
        t.numbering().contains_key(u),
        t.numbering().contains_key(w),
        u != w,
    ensures
        t.numbering()[u] != t.numbering()[w],
{
}

} // verus!
