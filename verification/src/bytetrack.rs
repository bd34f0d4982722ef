//! The bookkeeping of the BYTE multi-object tracker: track identities,
//! their life cycle, and the set operations between lists of tracks.
//!
//! A track carries a payload `P` with whatever the caller keeps beside the
//! bookkeeping (box, score, motion state); the functions here copy payloads
//! along with the tracks and never look into them.
use vstd::prelude::*;

verus! {

/// A counter that hands out consecutive numbers.
#[derive(Debug)]
pub struct Counter(usize);

impl View for Counter {
    type V = nat;

    closed spec fn view(&self) -> nat {
        self.0 as nat
    }
}

impl Counter {
    /// A counter whose first number is 0.
    pub fn new() -> (c: Self)
        ensures
            c@ == 0,
    {
        Counter(0)
    }

    /// A counter whose first number is `start`.
    pub fn with_start(start: usize) -> (c: Self)
        ensures
            c@ == start,
    {
        Counter(start)
    }

    /// The number the next `increment` hands out.
    pub fn current(&self) -> (n: usize)
        ensures
            n == self@,
    {
        self.0
    }

    /// Hands out the current number and moves to the next one.
    pub fn increment(&mut self) -> (id: usize)
        requires
            old(self)@ < usize::MAX,
        ensures
            id == old(self)@,
            final(self)@ == old(self)@ + 1,
    {
        let id = self.0;
        self.0 = self.0 + 1;
        id
    }
}

/// Successive increments of a counter hand out its starting number, then
/// the next one, and so on, so no number is handed out twice; afterwards
/// the counter stands at its start plus the number of calls. `states[i]`
/// is the counter before call `i` and `handed[i]` what that call gave.
pub proof fn lemma_counter_run(states: Seq<Counter>, handed: Seq<usize>)
    requires
        states.len() == handed.len() + 1,
        forall|i: int| 0 <= i < handed.len() ==> #[trigger] handed[i] == states[i]@ && states[i + 1]@ == states[i]@ + 1,
    ensures
        forall|i: int| 0 <= i < handed.len() ==> #[trigger] handed[i] == states[0]@ + i,
        states[handed.len() as int]@ == states[0]@ + handed.len(),
        forall|i: int, j: int| 0 <= i < j < handed.len() ==> #[trigger] handed[i] < #[trigger] handed[j],
    decreases handed.len(),
{
    if handed.len() > 0 {
        let n = handed.len() - 1;
        let s2 = states.drop_last();
        let h2 = handed.drop_last();
        assert forall|i: int| 0 <= i < h2.len() implies #[trigger] h2[i] == s2[i]@ && s2[i + 1]@ == s2[i]@ + 1 by {
            assert(h2[i] == handed[i] && s2[i] == states[i] && s2[i + 1] == states[i + 1]);
        }
        lemma_counter_run(s2, h2);
        assert(handed[n] == states[n]@);
        assert(s2[n] == states[n]);
        assert forall|i: int| 0 <= i < handed.len() implies #[trigger] handed[i] == states[0]@ + i by {
            if i < n {
                assert(h2[i] == handed[i]);
            }
        }
    }
}

/// Where an active track stands.
#[derive(Debug, Clone, Copy, PartialEq, Eq, Structural)]
pub enum TrackState {
    Tracking,
    Lost,
    Removed,
}

/// The bookkeeping of a track that has been activated.
#[derive(Debug, Clone, Copy, PartialEq, Eq, Structural)]
pub struct ActiveSTrack {
    pub track_id: usize,
    pub frame_id: usize,
    pub start_frame: usize,
    pub tracklet_len: usize,
    pub state: TrackState,
    pub det_idx: Option<usize>,
}

/// The bookkeeping of a track: a fresh detection not yet activated, with
/// the index of the detection it came from, or an active track.
#[derive(Debug, Clone, Copy, PartialEq, Eq, Structural)]
pub enum TrackLife {
    Inactive { det_idx: Option<usize> },
    Active(ActiveSTrack),
}

impl TrackLife {
    pub open spec fn is_active(self) -> bool {
        self is Active
    }

    pub open spec fn active(self) -> ActiveSTrack
        recommends
            self is Active,
    {
        self->Active_0
    }

    pub open spec fn track_id(self) -> usize {
        self->Active_0.track_id
    }

    pub open spec fn det_idx(self) -> Option<usize> {
        match self {
            TrackLife::Inactive { det_idx } => det_idx,
            TrackLife::Active(a) => a.det_idx,
        }
    }

    pub open spec fn is_tracked(self) -> bool {
        self is Active && self->Active_0.state == TrackState::Tracking
    }

    /// How many frames the track has lived: from its first frame to its
    /// last update.
    pub open spec fn age(self) -> int {
        self->Active_0.frame_id - self->Active_0.start_frame
    }

    /// `self` with the index of its detection replaced by `idx`.
    pub open spec fn with_det_idx(self, idx: Option<usize>) -> TrackLife {
        match self {
            TrackLife::Inactive { .. } => TrackLife::Inactive { det_idx: idx },
            TrackLife::Active(a) => TrackLife::Active(ActiveSTrack { det_idx: idx, ..a }),
        }
    }
}

/// A track: its bookkeeping and the caller's payload.
#[derive(Debug, Clone)]
pub struct STrack<P> {
    pub life: TrackLife,
    pub data: P,
}

impl<P> View for STrack<P> {
    type V = TrackLife;

    open spec fn view(&self) -> TrackLife {
        self.life
    }
}

impl<P> STrack<P> {
    /// A new inactive track made from the detection at index `idx`.
    pub fn from_detection(data: P, idx: usize) -> (t: Self)
        ensures
            t@ == (TrackLife::Inactive { det_idx: Some(idx) }),
            t.data == data,
    {
        STrack { life: TrackLife::Inactive { det_idx: Some(idx) }, data }
    }

    /// The track's bookkeeping.
    pub fn life(&self) -> (l: TrackLife)
        ensures
            l == self@,
    {
        self.life
    }

    /// Activates a fresh track in frame `frame_id`, giving it the next
    /// identity of `track_id`.
    pub fn activate(&mut self, track_id: &mut Counter, frame_id: usize)
        requires
            !old(self)@.is_active(),
            old(track_id)@ < usize::MAX,
        ensures
            final(self)@ == TrackLife::Active(
                ActiveSTrack {
                    track_id: old(track_id)@ as usize,
                    frame_id,
                    start_frame: frame_id,
                    tracklet_len: 0,
                    state: TrackState::Tracking,
                    det_idx: old(self)@.det_idx(),
                },
            ),
            final(track_id)@ == old(track_id)@ + 1,
            final(self).data == old(self).data,
    {
        match self.life {
            TrackLife::Inactive { det_idx } => {
                let id = track_id.increment();
                self.life = TrackLife::Active(
                    ActiveSTrack {
                        track_id: id,
                        frame_id,
                        start_frame: frame_id,
                        tracklet_len: 0,
                        state: TrackState::Tracking,
                        det_idx,
                    },
                );
            },
            TrackLife::Active(_) => {},
        }
    }

    /// Takes a lost track up again in frame `frame_id`: tracked, with a
    /// fresh tracklet, and its identity kept.
    pub fn reactivate(&mut self, frame_id: usize)
        requires
            old(self)@.is_active(),
        ensures
            final(self)@ == TrackLife::Active(
                ActiveSTrack {
                    tracklet_len: 0,
                    state: TrackState::Tracking,
                    frame_id,
                    ..old(self)@.active()
                },
            ),
            final(self).data == old(self).data,
    {
        if let TrackLife::Active(a) = self.life {
            self.life = TrackLife::Active(
                ActiveSTrack { tracklet_len: 0, state: TrackState::Tracking, frame_id, ..a },
            );
        }
    }

    /// Takes a lost track up again in frame `frame_id` under the next
    /// identity of `new_id`.
    pub fn reactivate_with_new_id(&mut self, frame_id: usize, new_id: &mut Counter)
        requires
            old(self)@.is_active(),
            old(new_id)@ < usize::MAX,
        ensures
            final(self)@ == TrackLife::Active(
                ActiveSTrack {
                    tracklet_len: 0,
                    state: TrackState::Tracking,
                    frame_id,
                    track_id: old(new_id)@ as usize,
                    ..old(self)@.active()
                },
            ),
            final(new_id)@ == old(new_id)@ + 1,
            final(self).data == old(self).data,
    {
        if let TrackLife::Active(a) = self.life {
            let id = new_id.increment();
            self.life = TrackLife::Active(
                ActiveSTrack {
                    tracklet_len: 0,
                    state: TrackState::Tracking,
                    frame_id,
                    track_id: id,
                    ..a
                },
            );
        }
    }

    /// Records that the track was matched again in frame `frame_id`.
    pub fn update(&mut self, frame_id: usize)
        requires
            old(self)@.is_active(),
            old(self)@.active().tracklet_len < usize::MAX,
        ensures
            final(self)@ == TrackLife::Active(
                ActiveSTrack {
                    tracklet_len: (old(self)@.active().tracklet_len + 1) as usize,
                    state: TrackState::Tracking,
                    frame_id,
                    ..old(self)@.active()
                },
            ),
            final(self).data == old(self).data,
    {
        if let TrackLife::Active(a) = self.life {
            self.life = TrackLife::Active(
                ActiveSTrack {
                    tracklet_len: a.tracklet_len + 1,
                    state: TrackState::Tracking,
                    frame_id,
                    ..a
                },
            );
        }
    }

    /// Marks an active track as lost.
    pub fn mark_lost(&mut self)
        requires
            old(self)@.is_active(),
        ensures
            final(self)@ == TrackLife::Active(
                ActiveSTrack { state: TrackState::Lost, ..old(self)@.active() },
            ),
            final(self).data == old(self).data,
    {
        if let TrackLife::Active(a) = self.life {
            self.life = TrackLife::Active(ActiveSTrack { state: TrackState::Lost, ..a });
        }
    }

    /// Marks an active track as removed.
    pub fn mark_removed(&mut self)
        requires
            old(self)@.is_active(),
        ensures
            final(self)@ == TrackLife::Active(
                ActiveSTrack { state: TrackState::Removed, ..old(self)@.active() },
            ),
            final(self).data == old(self).data,
    {
        if let TrackLife::Active(a) = self.life {
            self.life = TrackLife::Active(ActiveSTrack { state: TrackState::Removed, ..a });
        }
    }

    /// Whether the track has been activated.
    pub fn is_activated(&self) -> (r: bool)
        ensures
            r == self@.is_active(),
    {
        match self.life {
            TrackLife::Active(_) => true,
            TrackLife::Inactive { .. } => false,
        }
    }

    /// Whether the track is active and tracked.
    pub fn is_tracked(&self) -> (r: bool)
        ensures
            r == self@.is_tracked(),
    {
        match self.life {
            TrackLife::Active(a) => a.state == TrackState::Tracking,
            TrackLife::Inactive { .. } => false,
        }
    }

    /// Whether an active track is lost.
    pub fn is_lost(&self) -> (r: bool)
        requires
            self@.is_active(),
        ensures
            r == (self@.active().state == TrackState::Lost),
    {
        match self.life {
            TrackLife::Active(a) => a.state == TrackState::Lost,
            TrackLife::Inactive { .. } => false,
        }
    }

    /// The index of the detection the track was last matched with.
    pub fn det_idx(&self) -> (r: Option<usize>)
        ensures
            r == self@.det_idx(),
    {
        match self.life {
            TrackLife::Active(a) => a.det_idx,
            TrackLife::Inactive { det_idx } => det_idx,
        }
    }

    /// Replaces the index of the detection the track was last matched with.
    pub fn set_det_idx(&mut self, idx: Option<usize>)
        ensures
            final(self)@ == old(self)@.with_det_idx(idx),
            final(self).data == old(self).data,
    {
        match self.life {
            TrackLife::Active(a) => {
                self.life = TrackLife::Active(ActiveSTrack { det_idx: idx, ..a });
            },
            TrackLife::Inactive { .. } => {
                self.life = TrackLife::Inactive { det_idx: idx };
            },
        }
    }

    /// The identity of an active track.
    pub fn track_id(&self) -> (r: usize)
        requires
            self@.is_active(),
        ensures
            r == self@.track_id(),
    {
        match self.life {
            TrackLife::Active(a) => a.track_id,
            TrackLife::Inactive { .. } => 0,
        }
    }

    /// The frame in which an active track was last updated.
    pub fn frame_id(&self) -> (r: usize)
        requires
            self@.is_active(),
        ensures
            r == self@.active().frame_id,
    {
        match self.life {
            TrackLife::Active(a) => a.frame_id,
            TrackLife::Inactive { .. } => 0,
        }
    }

    /// The frame in which an active track was activated.
    pub fn start_frame(&self) -> (r: usize)
        requires
            self@.is_active(),
        ensures
            r == self@.active().start_frame,
    {
        match self.life {
            TrackLife::Active(a) => a.start_frame,
            TrackLife::Inactive { .. } => 0,
        }
    }
}

impl<P: Clone> STrack<P> {
    /// A copy of the track: the same bookkeeping and a clone of the payload.
    pub fn duplicate(&self) -> (t: Self)
        ensures
            t@ == self@,
            cloned(self.data, t.data),
    {
        STrack { life: self.life, data: self.data.clone() }
    }
}

/// The bookkeeping of each track of a list.
pub open spec fn lives<P>(s: Seq<STrack<P>>) -> Seq<TrackLife> {
    s.map_values(|t: STrack<P>| t@)
}

/// Whether every track of a list is active.
pub open spec fn all_active(s: Seq<TrackLife>) -> bool {
    forall|i: int| 0 <= i < s.len() ==> (#[trigger] s[i]).is_active()
}

/// Whether some track of a list has the identity `id`.
pub open spec fn has_id(s: Seq<TrackLife>, id: usize) -> bool {
    exists|i: int| 0 <= i < s.len() && (#[trigger] s[i]).track_id() == id
}

/// Whether every track of a list is being followed.
pub open spec fn all_tracked(s: Seq<TrackLife>) -> bool {
    forall|i: int| 0 <= i < s.len() ==> (#[trigger] s[i]).is_tracked()
}

/// Whether no two tracks of a list share an identity.
pub open spec fn distinct_ids(s: Seq<TrackLife>) -> bool {
    forall|i: int, j: int|
        0 <= i < s.len() && 0 <= j < s.len() && i != j ==> (#[trigger] s[i]).track_id()
            != (#[trigger] s[j]).track_id()
}

/// The elements of `s` whose flag in `keep` is set, in order.
pub open spec fn select<A>(s: Seq<A>, keep: Seq<bool>) -> Seq<A>
    decreases s.len(),
{
    if s.len() == 0 {
        Seq::empty()
    } else {
        let r = select(s.drop_last(), keep);
        if keep[s.len() - 1] {
            r.push(s.last())
        } else {
            r
        }
    }
}

/// `a` followed by each track of `b` whose identity is not yet among
/// those before it.
pub open spec fn joint_lives(a: Seq<TrackLife>, b: Seq<TrackLife>) -> Seq<TrackLife>
    decreases b.len(),
{
    if b.len() == 0 {
        a
    } else {
        let j = joint_lives(a, b.drop_last());
        if has_id(j, b.last().track_id()) {
            j
        } else {
            j.push(b.last())
        }
    }
}

/// The tracks of `a` whose identity no track of `b` has.
pub open spec fn sub_lives(a: Seq<TrackLife>, b: Seq<TrackLife>) -> Seq<TrackLife> {
    select(a, Seq::new(a.len(), |i: int| !has_id(b, a[i].track_id())))
}

/// Whether every track of `r` is a copy of some track of `src`, with a
/// clone of its payload.
pub open spec fn copies_of<P: Clone>(r: Seq<STrack<P>>, src: Seq<STrack<P>>) -> bool {
    forall|i: int|
        0 <= i < r.len() ==> exists|j: int|
            0 <= j < src.len() && (#[trigger] r[i])@ == src[j]@ && cloned(src[j].data, r[i].data)
}

proof fn lemma_select_push<A>(s: Seq<A>, keep: Seq<bool>, k: int)
    requires
        0 <= k < s.len(),
    ensures
        select(s.take(k + 1), keep) == (if keep[k] {
            select(s.take(k), keep).push(s[k])
        } else {
            select(s.take(k), keep)
        }),
{
    assert(s.take(k + 1).drop_last() =~= s.take(k));
}

fn contains_id<P>(tracks: &[STrack<P>], id: usize) -> (r: bool)
    requires
        all_active(lives(tracks@)),
    ensures
        r == has_id(lives(tracks@), id),
{
    let mut i: usize = 0;
    while i < tracks.len()
        invariant
            i <= tracks.len(),
            all_active(lives(tracks@)),
            forall|k: int| 0 <= k < i ==> lives(tracks@)[k].track_id() != id,
        decreases tracks.len() - i,
    {
        assert(lives(tracks@)[i as int] == tracks@[i as int]@);
        if tracks[i].track_id() == id {
            return true;
        }
        i = i + 1;
    }
    false
}

/// Copies the tracks of `s` whose flag in `keep` is set, in order.
fn filter_tracks<P: Clone>(s: &[STrack<P>], keep: &Vec<bool>) -> (r: Vec<STrack<P>>)
    requires
        keep.len() == s.len(),
    ensures
        lives(r@) == select(lives(s@), keep@),
        copies_of(r@, s@),
{
    let mut r: Vec<STrack<P>> = Vec::new();
    let mut i: usize = 0;
    while i < s.len()
        invariant
            i <= s.len(),
            keep.len() == s.len(),
            lives(r@) == select(lives(s@).take(i as int), keep@),
            copies_of(r@, s@),
        decreases s.len() - i,
    {
        proof {
            lemma_select_push(lives(s@), keep@, i as int);
        }
        if keep[i] {
            let t = s[i].duplicate();
            let ghost old_r = r@;
            r.push(t);
            proof {
                assert(lives(r@) =~= lives(old_r).push(s@[i as int]@));
                assert forall|k: int| 0 <= k < r.len() implies exists|j: int|
                    0 <= j < s.len() && (#[trigger] r@[k])@ == s@[j]@ && cloned(s@[j].data, r@[k].data) by {
                    if k < old_r.len() {
                        assert(r@[k] == old_r[k]);
                    } else {
                        assert(r@[k]@ == s@[i as int]@ && cloned(s@[i as int].data, r@[k].data));
                    }
                }
            }
        }
        i = i + 1;
    }
    assert(lives(s@).take(s.len() as int) =~= lives(s@));
    r
}

/// `a` followed by each track of `b` whose identity is not yet among those
/// before it.
pub fn joint_stracks<P: Clone>(a: &[STrack<P>], b: &[STrack<P>]) -> (r: Vec<STrack<P>>)
    requires
        all_active(lives(a@)),
        all_active(lives(b@)),
    ensures
        lives(r@) == joint_lives(lives(a@), lives(b@)),
        r.len() >= a.len(),
        forall|i: int| 0 <= i < a.len() ==> cloned(a@[i].data, #[trigger] r@[i].data),
        copies_of(r@.skip(a.len() as int), b@),
{
    let mut r: Vec<STrack<P>> = Vec::new();
    let mut i: usize = 0;
    while i < a.len()
        invariant
            i <= a.len(),
            r.len() == i,
            forall|k: int| 0 <= k < i ==> (#[trigger] r@[k])@ == a@[k]@ && cloned(a@[k].data, r@[k].data),
        decreases a.len() - i,
    {
        r.push(a[i].duplicate());
        i = i + 1;
    }
    assert(lives(r@) =~= lives(a@));
    assert(lives(b@).take(0) =~= Seq::<TrackLife>::empty());
    let mut j: usize = 0;
    while j < b.len()
        invariant
            j <= b.len(),
            r.len() >= a.len(),
            all_active(lives(b@)),
            lives(r@) == joint_lives(lives(a@), lives(b@).take(j as int)),
            all_active(lives(r@)),
            forall|k: int| 0 <= k < a.len() ==> (#[trigger] r@[k])@ == a@[k]@ && cloned(a@[k].data, r@[k].data),
            copies_of(r@.skip(a.len() as int), b@),
        decreases b.len() - j,
    {
        let ghost bj = lives(b@).take(j + 1);
        proof {
            assert(bj.drop_last() =~= lives(b@).take(j as int));
            assert(bj.last() == b@[j as int]@);
        }
        let id = b[j].track_id();
        if !contains_id(r.as_slice(), id) {
            let ghost old_r = r@;
            r.push(b[j].duplicate());
            proof {
                assert(lives(r@) =~= lives(old_r).push(b@[j as int]@));
                assert forall|k: int| 0 <= k < a.len() implies (#[trigger] r@[k])@ == a@[k]@ && cloned(a@[k].data, r@[k].data) by {
                    assert(r@[k] == old_r[k]);
                }
                let rs = r@.skip(a.len() as int);
                assert forall|k: int| 0 <= k < rs.len() implies exists|m: int|
                    0 <= m < b.len() && (#[trigger] rs[k])@ == b@[m]@ && cloned(b@[m].data, rs[k].data) by {
                    if k + a.len() < old_r.len() {
                        assert(rs[k] == old_r.skip(a.len() as int)[k]);
                    } else {
                        assert(rs[k] == r@[j as int + 0 + (r.len() - 1 - j) as int]);
                        assert(rs[k]@ == b@[j as int]@ && cloned(b@[j as int].data, rs[k].data));
                    }
                }
            }
        }
        j = j + 1;
    }
    assert(lives(b@).take(b.len() as int) =~= lives(b@));
    r
}

/// The tracks of `a` whose identity no track of `b` has.
pub fn sub_stracks<P: Clone>(a: &[STrack<P>], b: &[STrack<P>]) -> (r: Vec<STrack<P>>)
    requires
        all_active(lives(a@)),
        all_active(lives(b@)),
    ensures
        lives(r@) == sub_lives(lives(a@), lives(b@)),
        copies_of(r@, a@),
{
    let mut keep: Vec<bool> = Vec::new();
    let mut i: usize = 0;
    while i < a.len()
        invariant
            i <= a.len(),
            keep.len() == i,
            all_active(lives(a@)),
            all_active(lives(b@)),
            forall|k: int| 0 <= k < i ==> keep@[k] == !has_id(lives(b@), lives(a@)[k].track_id()),
        decreases a.len() - i,
    {
        assert(lives(a@)[i as int] == a@[i as int]@);
        let id = a[i].track_id();
        keep.push(!contains_id(b, id));
        i = i + 1;
    }
    assert(keep@ =~= Seq::new(lives(a@).len(), |k: int| !has_id(lives(b@), lives(a@)[k].track_id())));
    filter_tracks(a, &keep)
}

/// The rows of a matrix of flags.
pub open spec fn rows_view(m: Seq<Vec<bool>>) -> Seq<Seq<bool>> {
    m.map_values(|r: Vec<bool>| r@)
}

/// Whether `close` has one row per track of `a` and one column per track
/// of `b`.
pub open spec fn matrix_fits(close: Seq<Seq<bool>>, rows: int, cols: int) -> bool {
    close.len() == rows && forall|p: int| 0 <= p < rows ==> (#[trigger] close[p]).len() == cols
}

/// Track `p` of `a` is a duplicate: it lies close to some track of `b` that
/// has lived at least as long.
pub open spec fn dup_in_a(a: Seq<TrackLife>, b: Seq<TrackLife>, close: Seq<Seq<bool>>, p: int) -> bool {
    exists|q: int| 0 <= q < b.len() && close[p][q] && !(a[p].age() > (#[trigger] b[q]).age())
}

/// Track `q` of `b` is a duplicate: it lies close to some track of `a` that
/// has lived longer.
pub open spec fn dup_in_b(a: Seq<TrackLife>, b: Seq<TrackLife>, close: Seq<Seq<bool>>, q: int) -> bool {
    exists|p: int| 0 <= p < a.len() && close[p][q] && (#[trigger] a[p]).age() > b[q].age()
}

/// The flags that keep the tracks of `a` that are no duplicates.
pub open spec fn keep_in_a(a: Seq<TrackLife>, b: Seq<TrackLife>, close: Seq<Seq<bool>>) -> Seq<bool> {
    Seq::new(a.len(), |p: int| !dup_in_a(a, b, close, p))
}

/// The flags that keep the tracks of `b` that are no duplicates.
pub open spec fn keep_in_b(a: Seq<TrackLife>, b: Seq<TrackLife>, close: Seq<Seq<bool>>) -> Seq<bool> {
    Seq::new(b.len(), |q: int| !dup_in_b(a, b, close, q))
}

/// Whether every pair flagged close holds two active tracks whose last
/// update does not precede their activation.
pub open spec fn close_pairs_aged(a: Seq<TrackLife>, b: Seq<TrackLife>, close: Seq<Seq<bool>>) -> bool {
    forall|p: int, q: int|
        0 <= p < a.len() && 0 <= q < b.len() && #[trigger] close[p][q] ==> a[p].is_active()
            && b[q].is_active() && a[p].age() >= 0 && b[q].age() >= 0
}

/// Of two tracks taken for one object, the one that has lived for the
/// shorter time (last frame minus first frame) is dropped, the one of `a`
/// on a tie: for a close pair `(p, q)`, track `p` of `a` goes when it has
/// lived no longer than track `q` of `b`, and track `q` goes when `p` has
/// lived longer.
pub proof fn lemma_duplicate_younger_dropped(a: Seq<TrackLife>, b: Seq<TrackLife>, close: Seq<Seq<bool>>, p: int, q: int)
    requires
        0 <= p < a.len(),
        0 <= q < b.len(),
        close[p][q],
    ensures
        a[p]->Active_0.frame_id - a[p]->Active_0.start_frame <= b[q]->Active_0.frame_id - b[q]->Active_0.start_frame
            ==> !keep_in_a(a, b, close)[p],
        a[p]->Active_0.frame_id - a[p]->Active_0.start_frame > b[q]->Active_0.frame_id - b[q]->Active_0.start_frame
            ==> !keep_in_b(a, b, close)[q],
{
    if a[p]->Active_0.frame_id - a[p]->Active_0.start_frame <= b[q]->Active_0.frame_id - b[q]->Active_0.start_frame {
        assert(!(a[p].age() > b[q].age()));
        assert(dup_in_a(a, b, close, p));
    } else {
        assert(a[p].age() > b[q].age());
        assert(dup_in_b(a, b, close, q));
    }
}

/// A track is dropped only for a close track that has lived at least as
/// long (for a track of `a`) or for a close track of `a` that has lived
/// longer (for a track of `b`).
pub proof fn lemma_duplicate_dropped_only_for_elder(a: Seq<TrackLife>, b: Seq<TrackLife>, close: Seq<Seq<bool>>)
    ensures
        forall|p: int|
            0 <= p < a.len() && !(#[trigger] keep_in_a(a, b, close)[p]) ==> exists|q: int|
                0 <= q < b.len() && close[p][q] && a[p]->Active_0.frame_id - a[p]->Active_0.start_frame
                    <= b[q]->Active_0.frame_id - b[q]->Active_0.start_frame,
        forall|q: int|
            0 <= q < b.len() && !(#[trigger] keep_in_b(a, b, close)[q]) ==> exists|p: int|
                0 <= p < a.len() && close[p][q] && a[p]->Active_0.frame_id - a[p]->Active_0.start_frame
                    > b[q]->Active_0.frame_id - b[q]->Active_0.start_frame,
{
    assert forall|p: int| 0 <= p < a.len() && !(#[trigger] keep_in_a(a, b, close)[p]) implies exists|q: int|
        0 <= q < b.len() && close[p][q] && a[p]->Active_0.frame_id - a[p]->Active_0.start_frame
            <= b[q]->Active_0.frame_id - b[q]->Active_0.start_frame by {
        assert(dup_in_a(a, b, close, p));
        let q = choose|q: int| 0 <= q < b.len() && close[p][q] && !(a[p].age() > (#[trigger] b[q]).age());
    }
    assert forall|q: int| 0 <= q < b.len() && !(#[trigger] keep_in_b(a, b, close)[q]) implies exists|p: int|
        0 <= p < a.len() && close[p][q] && a[p]->Active_0.frame_id - a[p]->Active_0.start_frame
            > b[q]->Active_0.frame_id - b[q]->Active_0.start_frame by {
        assert(dup_in_b(a, b, close, q));
        let p = choose|p: int| 0 <= p < a.len() && close[p][q] && (#[trigger] a[p]).age() > b[q].age();
    }
}

fn age_of<P>(t: &STrack<P>) -> (r: usize)
    requires
        t@.is_active(),
        t@.age() >= 0,
    ensures
        r == t@.age(),
{
    t.frame_id() - t.start_frame()
}

/// Drops, from two lists of tracks, the tracks that duplicate one another.
/// `close[p][q]` tells whether track `p` of `a` and track `q` of `b` overlap
/// so much that they are taken for one object; of such a pair, the track
/// that has lived for the shorter time is dropped, the one of `a` on a tie.
pub fn remove_duplicate_stracks<P: Clone>(
    a: &[STrack<P>],
    b: &[STrack<P>],
    close: &Vec<Vec<bool>>,
) -> (r: (Vec<STrack<P>>, Vec<STrack<P>>))
    requires
        matrix_fits(rows_view(close@), a.len() as int, b.len() as int),
        close_pairs_aged(lives(a@), lives(b@), rows_view(close@)),
    ensures
        lives(r.0@) == select(lives(a@), keep_in_a(lives(a@), lives(b@), rows_view(close@))),
        lives(r.1@) == select(lives(b@), keep_in_b(lives(a@), lives(b@), rows_view(close@))),
        copies_of(r.0@, a@),
        copies_of(r.1@, b@),
{
    let ghost la = lives(a@);
    let ghost lb = lives(b@);
    let ghost cm = rows_view(close@);
    let mut keep_a: Vec<bool> = Vec::new();
    let mut p: usize = 0;
    while p < a.len()
        invariant
            p <= a.len(),
            keep_a.len() == p,
            la == lives(a@),
            lb == lives(b@),
            cm == rows_view(close@),
            matrix_fits(cm, a.len() as int, b.len() as int),
            close_pairs_aged(la, lb, cm),
            forall|k: int| 0 <= k < p ==> keep_a@[k] == !dup_in_a(la, lb, cm, k),
        decreases a.len() - p,
    {
        let mut dup = false;
        let mut q: usize = 0;
        assert(cm[p as int] == close@[p as int]@);
        while q < b.len()
            invariant
                p < a.len(),
                q <= b.len(),
                la == lives(a@),
                lb == lives(b@),
                cm == rows_view(close@),
                matrix_fits(cm, a.len() as int, b.len() as int),
                close_pairs_aged(la, lb, cm),
                cm[p as int] == close@[p as int]@,
                dup == exists|k: int| 0 <= k < q && cm[p as int][k] && !(la[p as int].age() > (#[trigger] lb[k]).age()),
            decreases b.len() - q,
        {
            if close[p][q] {
                assert(la[p as int] == a@[p as int]@ && lb[q as int] == b@[q as int]@);
                let tp = age_of(&a[p]);
                let tq = age_of(&b[q]);
                if !(tp > tq) {
                    dup = true;
                }
            }
            q = q + 1;
        }
        keep_a.push(!dup);
        p = p + 1;
    }
    let mut keep_b: Vec<bool> = Vec::new();
    let mut q: usize = 0;
    while q < b.len()
        invariant
            q <= b.len(),
            keep_b.len() == q,
            la == lives(a@),
            lb == lives(b@),
            cm == rows_view(close@),
            matrix_fits(cm, a.len() as int, b.len() as int),
            close_pairs_aged(la, lb, cm),
            forall|k: int| 0 <= k < q ==> keep_b@[k] == !dup_in_b(la, lb, cm, k),
        decreases b.len() - q,
    {
        let mut dup = false;
        let mut p: usize = 0;
        while p < a.len()
            invariant
                q < b.len(),
                p <= a.len(),
                la == lives(a@),
                lb == lives(b@),
                cm == rows_view(close@),
                matrix_fits(cm, a.len() as int, b.len() as int),
                close_pairs_aged(la, lb, cm),
                dup == exists|k: int| 0 <= k < p && cm[k][q as int] && (#[trigger] la[k]).age() > lb[q as int].age(),
            decreases a.len() - p,
        {
            assert(cm[p as int] == close@[p as int]@);
            if close[p][q] {
                assert(la[p as int] == a@[p as int]@ && lb[q as int] == b@[q as int]@);
                let tp = age_of(&a[p]);
                let tq = age_of(&b[q]);
                if tp > tq {
                    dup = true;
                }
            }
            p = p + 1;
        }
        keep_b.push(!dup);
        q = q + 1;
    }
    assert(keep_a@ =~= keep_in_a(la, lb, cm));
    assert(keep_b@ =~= keep_in_b(la, lb, cm));
    (filter_tracks(a, &keep_a), filter_tracks(b, &keep_b))
}

/// Whether row `r` of an assignment problem keeps its column: the solver
/// gave it a real column, whose cost is within the threshold.
pub open spec fn row_matched(ncols: usize, x: Seq<usize>, accept: Seq<bool>, r: int) -> bool {
    x[r] < ncols && accept[r]
}

/// Whether some kept row took column `c`.
pub open spec fn col_matched(nrows: usize, ncols: usize, x: Seq<usize>, accept: Seq<bool>, c: int) -> bool {
    exists|r: int| 0 <= r < nrows && #[trigger] row_matched(ncols, x, accept, r) && x[r] == c
}

/// The matches `(row, column)` of an assignment, by row.
pub open spec fn assignment_matches(nrows: usize, ncols: usize, x: Seq<usize>, accept: Seq<bool>) -> Seq<(usize, usize)> {
    select(
        Seq::new(nrows as nat, |r: int| (r as usize, x[r])),
        Seq::new(nrows as nat, |r: int| row_matched(ncols, x, accept, r)),
    )
}

/// The rows left without a column, in order.
pub open spec fn assignment_unmatched_rows(nrows: usize, ncols: usize, x: Seq<usize>, accept: Seq<bool>) -> Seq<usize> {
    select(
        Seq::new(nrows as nat, |r: int| r as usize),
        Seq::new(nrows as nat, |r: int| !row_matched(ncols, x, accept, r)),
    )
}

/// The columns no kept row took, in order.
pub open spec fn assignment_unmatched_cols(nrows: usize, ncols: usize, x: Seq<usize>, accept: Seq<bool>) -> Seq<usize> {
    select(
        Seq::new(ncols as nat, |c: int| c as usize),
        Seq::new(ncols as nat, |c: int| !col_matched(nrows, ncols, x, accept, c)),
    )
}

/// Reads the outcome of a square assignment of `nrows` rows to `ncols`
/// columns: `x[r]` is the column the solver gave row `r` (a column past
/// `ncols` is padding) and `accept[r]` tells whether the cost of that cell
/// is within the threshold. Gives the kept matches, the rows left over and
/// the columns left over. With no rows or no columns nothing is matched.
pub fn split_assignment(
    nrows: usize,
    ncols: usize,
    x: &Vec<usize>,
    accept: &Vec<bool>,
) -> (r: (Vec<(usize, usize)>, Vec<usize>, Vec<usize>))
    requires
        nrows > 0 && ncols > 0 ==> x.len() >= nrows && accept.len() >= nrows,
    ensures
        r.0@ == assignment_matches(nrows, ncols, x@, accept@),
        r.1@ == assignment_unmatched_rows(nrows, ncols, x@, accept@),
        r.2@ == assignment_unmatched_cols(nrows, ncols, x@, accept@),
        strictly_increasing(r.1@),
        strictly_increasing(r.2@),
{
    let ghost all_rows = Seq::new(nrows as nat, |r: int| (r as usize, x@[r]));
    let ghost row_ids = Seq::new(nrows as nat, |r: int| r as usize);
    let ghost keep_rows = Seq::new(nrows as nat, |r: int| row_matched(ncols, x@, accept@, r));
    let ghost drop_rows = Seq::new(nrows as nat, |r: int| !row_matched(ncols, x@, accept@, r));
    let ghost col_ids = Seq::new(ncols as nat, |c: int| c as usize);
    let ghost free_cols = Seq::new(ncols as nat, |c: int| !col_matched(nrows, ncols, x@, accept@, c));
    let mut matches: Vec<(usize, usize)> = Vec::new();
    let mut unmatched_a: Vec<usize> = Vec::new();
    let mut taken: Vec<bool> = Vec::new();
    let mut c: usize = 0;
    while c < ncols
        invariant
            c <= ncols,
            taken.len() == c,
            forall|k: int| 0 <= k < c ==> !taken@[k],
        decreases ncols - c,
    {
        taken.push(false);
        c = c + 1;
    }
    if nrows > 0 && ncols > 0 {
        let mut r: usize = 0;
        while r < nrows
            invariant
                r <= nrows,
                x.len() >= nrows,
                accept.len() >= nrows,
                taken.len() == ncols,
                all_rows == Seq::new(nrows as nat, |r: int| (r as usize, x@[r])),
                row_ids == Seq::new(nrows as nat, |r: int| r as usize),
                keep_rows == Seq::new(nrows as nat, |r: int| row_matched(ncols, x@, accept@, r)),
                drop_rows == Seq::new(nrows as nat, |r: int| !row_matched(ncols, x@, accept@, r)),
                matches@ == select(all_rows.take(r as int), keep_rows),
                unmatched_a@ == select(row_ids.take(r as int), drop_rows),
                forall|k: int| 0 <= k < ncols ==> taken@[k] == exists|m: int|
                    0 <= m < r && #[trigger] row_matched(ncols, x@, accept@, m) && x@[m] == k,
            decreases nrows - r,
        {
            proof {
                lemma_select_push(all_rows, keep_rows, r as int);
                lemma_select_push(row_ids, drop_rows, r as int);
            }
            let col = x[r];
            if col < ncols && accept[r] {
                matches.push((r, col));
                taken.set(col, true);
                proof {
                    assert forall|k: int| 0 <= k < ncols implies taken@[k] == exists|m: int|
                        0 <= m < r + 1 && #[trigger] row_matched(ncols, x@, accept@, m) && x@[m] == k by {
                        if k == col {
                            assert(row_matched(ncols, x@, accept@, r as int));
                        }
                    }
                }
            } else {
                unmatched_a.push(r);
                proof {
                    assert forall|k: int| 0 <= k < ncols implies taken@[k] == exists|m: int|
                        0 <= m < r + 1 && #[trigger] row_matched(ncols, x@, accept@, m) && x@[m] == k by {
                        if taken@[k] {
                        } else {
                            assert(!row_matched(ncols, x@, accept@, r as int));
                        }
                    }
                }
            }
            r = r + 1;
        }
        assert(all_rows.take(nrows as int) =~= all_rows);
        assert(row_ids.take(nrows as int) =~= row_ids);
    } else {
        let mut r: usize = 0;
        while r < nrows
            invariant
                r <= nrows,
                nrows == 0 || ncols == 0,
                row_ids == Seq::new(nrows as nat, |r: int| r as usize),
                drop_rows == Seq::new(nrows as nat, |r: int| !row_matched(ncols, x@, accept@, r)),
                unmatched_a@ == select(row_ids.take(r as int), drop_rows),
            decreases nrows - r,
        {
            proof {
                lemma_select_push(row_ids, drop_rows, r as int);
            }
            unmatched_a.push(r);
            r = r + 1;
        }
        assert(row_ids.take(nrows as int) =~= row_ids);
        assert(matches@ =~= select(all_rows, keep_rows)) by {
            lemma_select_none(all_rows, keep_rows);
        }
    }
    let mut unmatched_b: Vec<usize> = Vec::new();
    let mut c: usize = 0;
    while c < ncols
        invariant
            c <= ncols,
            taken.len() == ncols,
            col_ids == Seq::new(ncols as nat, |c: int| c as usize),
            free_cols == Seq::new(ncols as nat, |c: int| !col_matched(nrows, ncols, x@, accept@, c)),
            forall|k: int| 0 <= k < ncols ==> taken@[k] == col_matched(nrows, ncols, x@, accept@, k),
            unmatched_b@ == select(col_ids.take(c as int), free_cols),
        decreases ncols - c,
    {
        proof {
            lemma_select_push(col_ids, free_cols, c as int);
        }
        if !taken[c] {
            unmatched_b.push(c);
        }
        c = c + 1;
    }
    assert(col_ids.take(ncols as int) =~= col_ids);
    proof {
        lemma_select_increasing(row_ids, drop_rows);
        lemma_select_increasing(col_ids, free_cols);
    }
    (matches, unmatched_a, unmatched_b)
}

proof fn lemma_select_none<A>(s: Seq<A>, keep: Seq<bool>)
    requires
        keep.len() >= s.len(),
        forall|i: int| 0 <= i < s.len() ==> !keep[i],
    ensures
        select(s, keep) =~= Seq::<A>::empty(),
    decreases s.len(),
{
    if s.len() > 0 {
        lemma_select_none(s.drop_last(), keep);
    }
}

/// Whether a track is active, was last updated before frame `frame_next`
/// and not before its first frame, has a tracklet no longer than its life,
/// and has an identity below `id_next`.
pub open spec fn track_ok(l: TrackLife, frame_next: int, id_next: int) -> bool {
    &&& l is Active
    &&& l->Active_0.start_frame <= l->Active_0.frame_id
    &&& l->Active_0.frame_id < frame_next
    &&& l->Active_0.tracklet_len <= l->Active_0.frame_id - l->Active_0.start_frame
    &&& l->Active_0.track_id < id_next
}

/// Whether every track of a list is `track_ok`.
pub open spec fn tracks_ok(s: Seq<TrackLife>, frame_next: int, id_next: int) -> bool {
    forall|i: int| 0 <= i < s.len() ==> track_ok(#[trigger] s[i], frame_next, id_next)
}

/// Every element of `select(s, keep)` is an element of `s`.
pub proof fn lemma_select_from<A>(s: Seq<A>, keep: Seq<bool>)
    ensures
        forall|i: int| 0 <= i < select(s, keep).len() ==> s.contains(#[trigger] select(s, keep)[i]),
        select(s, keep).len() <= s.len(),
    decreases s.len(),
{
    if s.len() > 0 {
        let d = s.drop_last();
        let r = select(d, keep);
        lemma_select_from(d, keep);
        let sel = select(s, keep);
        assert forall|i: int| 0 <= i < sel.len() implies s.contains(#[trigger] sel[i]) by {
            if i < r.len() {
                assert(d.contains(r[i]));
                let j = choose|j: int| 0 <= j < d.len() && d[j] == r[i];
                assert(s[j] == sel[i]);
            } else {
                assert(s[s.len() - 1] == sel[i]);
            }
        }
    }
}

/// Selecting from a list of sound tracks gives sound tracks.
pub proof fn lemma_select_ok(s: Seq<TrackLife>, keep: Seq<bool>, f: int, n: int)
    requires
        tracks_ok(s, f, n),
    ensures
        tracks_ok(select(s, keep), f, n),
{
    lemma_select_from(s, keep);
    assert forall|i: int| 0 <= i < select(s, keep).len() implies track_ok(#[trigger] select(s, keep)[i], f, n) by {
        assert(s.contains(select(s, keep)[i]));
        let j = choose|j: int| 0 <= j < s.len() && s[j] == select(s, keep)[i];
        assert(track_ok(s[j], f, n));
    }
}

/// Selecting from a list whose identities are distinct keeps them distinct.
pub proof fn lemma_select_distinct(s: Seq<TrackLife>, keep: Seq<bool>)
    requires
        distinct_ids(s),
    ensures
        distinct_ids(select(s, keep)),
    decreases s.len(),
{
    if s.len() > 0 {
        let d = s.drop_last();
        assert(distinct_ids(d)) by {
            assert forall|i: int, j: int| 0 <= i < d.len() && 0 <= j < d.len() && i != j implies
                (#[trigger] d[i]).track_id() != (#[trigger] d[j]).track_id() by {
                assert(d[i] == s[i] && d[j] == s[j]);
            }
        }
        lemma_select_distinct(d, keep);
        lemma_select_from(d, keep);
        let r = select(d, keep);
        if keep[s.len() - 1] {
            let rr = r.push(s.last());
            assert forall|i: int, j: int| 0 <= i < rr.len() && 0 <= j < rr.len() && i != j implies
                (#[trigger] rr[i]).track_id() != (#[trigger] rr[j]).track_id() by {
                if i < r.len() && j < r.len() {
                    assert(rr[i] == r[i] && rr[j] == r[j]);
                } else if i < r.len() {
                    assert(d.contains(r[i]));
                    let k = choose|k: int| 0 <= k < d.len() && d[k] == r[i];
                    assert(s[k] == rr[i] && s[s.len() - 1] == rr[j]);
                } else {
                    assert(d.contains(r[j]));
                    let k = choose|k: int| 0 <= k < d.len() && d[k] == r[j];
                    assert(s[k] == rr[j] && s[s.len() - 1] == rr[i]);
                }
            }
        }
    }
}

/// Every element of `joint_lives(a, b)` is an element of `a` or of `b`, and
/// the first elements are those of `a`.
pub proof fn lemma_joint_from(a: Seq<TrackLife>, b: Seq<TrackLife>)
    ensures
        joint_lives(a, b).len() >= a.len(),
        forall|i: int| 0 <= i < a.len() ==> #[trigger] joint_lives(a, b)[i] == a[i],
        forall|i: int| 0 <= i < joint_lives(a, b).len() ==> a.contains(#[trigger] joint_lives(a, b)[i])
            || b.contains(joint_lives(a, b)[i]),
    decreases b.len(),
{
    let jab = joint_lives(a, b);
    if b.len() > 0 {
        let d = b.drop_last();
        lemma_joint_from(a, d);
        let j = joint_lives(a, d);
        assert forall|i: int| 0 <= i < jab.len() implies a.contains(#[trigger] jab[i]) || b.contains(jab[i]) by {
            if i < j.len() {
                assert(jab[i] == j[i]);
                if !a.contains(j[i]) {
                    assert(d.contains(j[i]));
                    let k = choose|k: int| 0 <= k < d.len() && d[k] == j[i];
                    assert(b[k] == jab[i]);
                }
            } else {
                assert(b[b.len() - 1] == jab[i]);
            }
        }
    } else {
        assert forall|i: int| 0 <= i < jab.len() implies a.contains(#[trigger] jab[i]) || b.contains(jab[i]) by {
            assert(a[i] == jab[i]);
        }
    }
}

/// Joining sound tracks gives sound tracks.
pub proof fn lemma_joint_ok(a: Seq<TrackLife>, b: Seq<TrackLife>, f: int, n: int)
    requires
        tracks_ok(a, f, n),
        tracks_ok(b, f, n),
    ensures
        tracks_ok(joint_lives(a, b), f, n),
{
    lemma_joint_from(a, b);
    assert forall|i: int| 0 <= i < joint_lives(a, b).len() implies track_ok(#[trigger] joint_lives(a, b)[i], f, n) by {
        if a.contains(joint_lives(a, b)[i]) {
            let j = choose|j: int| 0 <= j < a.len() && a[j] == joint_lives(a, b)[i];
            assert(track_ok(a[j], f, n));
        } else {
            let j = choose|j: int| 0 <= j < b.len() && b[j] == joint_lives(a, b)[i];
            assert(track_ok(b[j], f, n));
        }
    }
}

/// Joining onto a list with distinct identities keeps them distinct: a track
/// of `b` is only appended when its identity is new.
pub proof fn lemma_joint_distinct(a: Seq<TrackLife>, b: Seq<TrackLife>)
    requires
        distinct_ids(a),
    ensures
        distinct_ids(joint_lives(a, b)),
    decreases b.len(),
{
    if b.len() > 0 {
        lemma_joint_distinct(a, b.drop_last());
        let j = joint_lives(a, b.drop_last());
        if !has_id(j, b.last().track_id()) {
            let jj = j.push(b.last());
            assert forall|x: int, y: int| 0 <= x < jj.len() && 0 <= y < jj.len() && x != y implies
                (#[trigger] jj[x]).track_id() != (#[trigger] jj[y]).track_id() by {
                if x < j.len() && y < j.len() {
                    assert(jj[x] == j[x] && jj[y] == j[y]);
                } else if x < j.len() {
                    assert(jj[x] == j[x]);
                } else {
                    assert(jj[y] == j[y]);
                }
            }
        }
    }
}

/// Soundness carries over to a later frame and a later identity.
pub proof fn lemma_ok_mono(s: Seq<TrackLife>, f: int, n: int, f2: int, n2: int)
    requires
        tracks_ok(s, f, n),
        f <= f2,
        n <= n2,
    ensures
        tracks_ok(s, f2, n2),
{
    assert forall|i: int| 0 <= i < s.len() implies track_ok(#[trigger] s[i], f2, n2) by {
        assert(track_ok(s[i], f, n));
    }
}

/// An element of `s` whose flag in `keep` is set equals `x`.
pub open spec fn kept_element<A>(s: Seq<A>, keep: Seq<bool>, x: A) -> bool {
    exists|j: int| 0 <= j < s.len() && keep[j] && s[j] == x
}

/// Every element of `select(s, keep)` is an element of `s` whose flag is set.
pub proof fn lemma_select_kept<A>(s: Seq<A>, keep: Seq<bool>)
    ensures
        forall|i: int| 0 <= i < select(s, keep).len() ==> kept_element(s, keep, #[trigger] select(s, keep)[i]),
    decreases s.len(),
{
    if s.len() > 0 {
        let d = s.drop_last();
        let r = select(d, keep);
        lemma_select_kept(d, keep);
        let sel = select(s, keep);
        assert forall|i: int| 0 <= i < sel.len() implies kept_element(s, keep, #[trigger] sel[i]) by {
            if i < r.len() {
                assert(kept_element(d, keep, r[i]));
                let j = choose|j: int| 0 <= j < d.len() && keep[j] && d[j] == r[i];
                assert(s[j] == sel[i]);
            } else {
                assert(s[s.len() - 1] == sel[i]);
            }
        }
    }
}

/// Selecting with every flag set keeps the whole list.
pub proof fn lemma_select_all<A>(s: Seq<A>, keep: Seq<bool>)
    requires
        keep.len() >= s.len(),
        forall|i: int| 0 <= i < s.len() ==> keep[i],
    ensures
        select(s, keep) == s,
    decreases s.len(),
{
    if s.len() > 0 {
        lemma_select_all(s.drop_last(), keep);
        assert(s.drop_last().push(s.last()) =~= s);
    } else {
        assert(select(s, keep) =~= s);
    }
}

/// An element of `s` whose flag is set is among the selected ones.
pub proof fn lemma_select_keeps<A>(s: Seq<A>, keep: Seq<bool>, j: int)
    requires
        0 <= j < s.len(),
        keep[j],
    ensures
        select(s, keep).contains(s[j]),
    decreases s.len(),
{
    let d = s.drop_last();
    let r = select(d, keep);
    if j < s.len() - 1 {
        lemma_select_keeps(d, keep, j);
        let k = choose|k: int| 0 <= k < r.len() && r[k] == d[j];
        if keep[s.len() - 1] {
            assert(r.push(s.last())[k] == s[j]);
        }
    } else {
        assert(r.push(s.last())[r.len() as int] == s[j]);
    }
}

/// What `sub_stracks` keeps: no track of the result shares its identity
/// with a track of `b`, and every track of `a` whose identity no track of
/// `b` has is kept.
pub proof fn lemma_sub_lives_disjoint(a: Seq<TrackLife>, b: Seq<TrackLife>)
    ensures
        forall|i: int| 0 <= i < sub_lives(a, b).len() ==> !has_id(b, (#[trigger] sub_lives(a, b)[i]).track_id()),
        forall|j: int| 0 <= j < a.len() && !has_id(b, a[j].track_id()) ==> sub_lives(a, b).contains(#[trigger] a[j]),
{
    let keep = Seq::new(a.len(), |i: int| !has_id(b, a[i].track_id()));
    lemma_select_kept(a, keep);
    assert forall|i: int| 0 <= i < sub_lives(a, b).len() implies !has_id(b, (#[trigger] sub_lives(a, b)[i]).track_id()) by {
        assert(kept_element(a, keep, sub_lives(a, b)[i]));
        let j = choose|j: int| 0 <= j < a.len() && keep[j] && a[j] == sub_lives(a, b)[i];
    }
    assert forall|j: int| 0 <= j < a.len() && !has_id(b, a[j].track_id()) implies sub_lives(a, b).contains(#[trigger] a[j]) by {
        lemma_select_keeps(a, keep, j);
    }
}

/// After duplicates are removed, no track kept in `a` and track kept in `b`
/// form a pair flagged close.
pub proof fn lemma_no_close_pair_survives(a: Seq<TrackLife>, b: Seq<TrackLife>, close: Seq<Seq<bool>>, p: int, q: int)
    requires
        0 <= p < a.len(),
        0 <= q < b.len(),
        keep_in_a(a, b, close)[p],
        keep_in_b(a, b, close)[q],
    ensures
        !close[p][q],
{
    if close[p][q] {
        if !(a[p].age() > b[q].age()) {
            assert(dup_in_a(a, b, close, p));
        } else {
            assert(dup_in_b(a, b, close, q));
        }
    }
}

/// The outcome of an assignment splits the rows: each row is either kept
/// with its column among the matches or left over, never both; and each
/// column is left over exactly when no kept row took it.
pub proof fn lemma_assignment_partition(nrows: usize, ncols: usize, x: Seq<usize>, accept: Seq<bool>)
    ensures
        forall|r: usize| r < nrows ==> (#[trigger] assignment_unmatched_rows(nrows, ncols, x, accept).contains(r)
            <==> !row_matched(ncols, x, accept, r as int)),
        forall|r: usize| r < nrows && row_matched(ncols, x, accept, r as int) ==> #[trigger] assignment_matches(
            nrows,
            ncols,
            x,
            accept,
        ).contains((r, x[r as int])),
        forall|k: int| 0 <= k < assignment_matches(nrows, ncols, x, accept).len() ==> row_matched(
            ncols,
            x,
            accept,
            (#[trigger] assignment_matches(nrows, ncols, x, accept)[k]).0 as int,
        ) && assignment_matches(nrows, ncols, x, accept)[k].1 == x[assignment_matches(nrows, ncols, x, accept)[k].0 as int],
        forall|c: usize| c < ncols ==> (#[trigger] assignment_unmatched_cols(nrows, ncols, x, accept).contains(c)
            <==> !col_matched(nrows, ncols, x, accept, c as int)),
{
    let all_rows = Seq::new(nrows as nat, |r: int| (r as usize, x[r]));
    let row_ids = Seq::new(nrows as nat, |r: int| r as usize);
    let keep_rows = Seq::new(nrows as nat, |r: int| row_matched(ncols, x, accept, r));
    let drop_rows = Seq::new(nrows as nat, |r: int| !row_matched(ncols, x, accept, r));
    let col_ids = Seq::new(ncols as nat, |c: int| c as usize);
    let free_cols = Seq::new(ncols as nat, |c: int| !col_matched(nrows, ncols, x, accept, c));
    lemma_select_kept(row_ids, drop_rows);
    lemma_select_kept(all_rows, keep_rows);
    lemma_select_kept(col_ids, free_cols);
    assert forall|r: usize| r < nrows implies (#[trigger] assignment_unmatched_rows(nrows, ncols, x, accept).contains(r)
        <==> !row_matched(ncols, x, accept, r as int)) by {
        let u = assignment_unmatched_rows(nrows, ncols, x, accept);
        if u.contains(r) {
            let k = choose|k: int| 0 <= k < u.len() && u[k] == r;
            assert(kept_element(row_ids, drop_rows, u[k]));
        }
        if !row_matched(ncols, x, accept, r as int) {
            assert(row_ids[r as int] == r);
            lemma_select_keeps(row_ids, drop_rows, r as int);
        }
    }
    assert forall|r: usize| r < nrows && row_matched(ncols, x, accept, r as int) implies #[trigger] assignment_matches(
        nrows,
        ncols,
        x,
        accept,
    ).contains((r, x[r as int])) by {
        assert(all_rows[r as int] == (r, x[r as int]));
        lemma_select_keeps(all_rows, keep_rows, r as int);
    }
    assert forall|k: int| 0 <= k < assignment_matches(nrows, ncols, x, accept).len() implies row_matched(
        ncols,
        x,
        accept,
        (#[trigger] assignment_matches(nrows, ncols, x, accept)[k]).0 as int,
    ) && assignment_matches(nrows, ncols, x, accept)[k].1 == x[assignment_matches(nrows, ncols, x, accept)[k].0 as int] by {
        let m = assignment_matches(nrows, ncols, x, accept);
        assert(kept_element(all_rows, keep_rows, m[k]));
        let j = choose|j: int| 0 <= j < all_rows.len() && keep_rows[j] && all_rows[j] == m[k];
    }
    assert forall|c: usize| c < ncols implies (#[trigger] assignment_unmatched_cols(nrows, ncols, x, accept).contains(c)
        <==> !col_matched(nrows, ncols, x, accept, c as int)) by {
        let u = assignment_unmatched_cols(nrows, ncols, x, accept);
        if u.contains(c) {
            let k = choose|k: int| 0 <= k < u.len() && u[k] == c;
            assert(kept_element(col_ids, free_cols, u[k]));
        }
        if !col_matched(nrows, ncols, x, accept, c as int) {
            assert(col_ids[c as int] == c);
            lemma_select_keeps(col_ids, free_cols, c as int);
        }
    }
}

/// A selected list holds only identities of the list it was selected from.
proof fn lemma_has_id_select(s: Seq<TrackLife>, keep: Seq<bool>, id: usize)
    requires
        has_id(select(s, keep), id),
    ensures
        has_id(s, id),
{
    lemma_select_from(s, keep);
    let t = select(s, keep);
    let k = choose|k: int| 0 <= k < t.len() && (#[trigger] t[k]).track_id() == id;
    assert(s.contains(t[k]));
    let m = choose|m: int| 0 <= m < s.len() && s[m] == t[k];
    assert(s[m].track_id() == id);
}

/// The lost tracks after a step come from the lost tracks before it, minus
/// those whose identity is followed or was removed before.
proof fn lemma_lost_from_old(
    lost0: Seq<TrackLife>,
    removed0: Seq<TrackLife>,
    t2: Seq<TrackLife>,
    keep_a: Seq<bool>,
    keep_b: Seq<bool>,
)
    ensures
        forall|i: int|
            0 <= i < select(sub_lives(sub_lives(lost0, t2), removed0), keep_b).len() ==> {
                let x = #[trigger] select(sub_lives(sub_lives(lost0, t2), removed0), keep_b)[i];
                &&& lost0.contains(x)
                &&& !has_id(removed0, x.track_id())
                &&& !has_id(select(t2, keep_a), x.track_id())
            },
{
    let l1 = sub_lives(lost0, t2);
    let l2 = sub_lives(l1, removed0);
    let l3 = select(l2, keep_b);
    let f1 = Seq::new(lost0.len(), |i: int| !has_id(t2, lost0[i].track_id()));
    let f2 = Seq::new(l1.len(), |i: int| !has_id(removed0, l1[i].track_id()));
    lemma_select_from(l2, keep_b);
    lemma_select_from(l1, f2);
    lemma_select_from(lost0, f1);
    lemma_sub_lives_disjoint(lost0, t2);
    lemma_sub_lives_disjoint(l1, removed0);
    assert forall|i: int| 0 <= i < l3.len() implies {
        let x = #[trigger] l3[i];
        &&& lost0.contains(x)
        &&& !has_id(removed0, x.track_id())
        &&& !has_id(select(t2, keep_a), x.track_id())
    } by {
        let x = l3[i];
        assert(l2.contains(x));
        let j = choose|j: int| 0 <= j < l2.len() && l2[j] == x;
        assert(!has_id(removed0, l2[j].track_id()));
        assert(l1.contains(x));
        let k = choose|k: int| 0 <= k < l1.len() && l1[k] == x;
        assert(!has_id(t2, l1[k].track_id()));
        if has_id(select(t2, keep_a), x.track_id()) {
            lemma_has_id_select(t2, keep_a, x.track_id());
        }
    }
}

/// Selecting from followed tracks gives followed tracks.
proof fn lemma_all_tracked_select(s: Seq<TrackLife>, keep: Seq<bool>)
    requires
        all_tracked(s),
    ensures
        all_tracked(select(s, keep)),
{
    lemma_select_from(s, keep);
    let t = select(s, keep);
    assert forall|i: int| 0 <= i < t.len() implies (#[trigger] t[i]).is_tracked() by {
        assert(s.contains(t[i]));
        let j = choose|j: int| 0 <= j < s.len() && s[j] == t[i];
        assert(s[j].is_tracked());
    }
}

/// Joining followed tracks gives followed tracks.
proof fn lemma_all_tracked_joint(a: Seq<TrackLife>, b: Seq<TrackLife>)
    requires
        all_tracked(a),
        all_tracked(b),
    ensures
        all_tracked(joint_lives(a, b)),
{
    lemma_joint_from(a, b);
    let j = joint_lives(a, b);
    assert forall|i: int| 0 <= i < j.len() implies (#[trigger] j[i]).is_tracked() by {
        if a.contains(j[i]) {
            let k = choose|k: int| 0 <= k < a.len() && a[k] == j[i];
            assert(a[k].is_tracked());
        } else {
            let k = choose|k: int| 0 <= k < b.len() && b[k] == j[i];
            assert(b[k].is_tracked());
        }
    }
}

/// Joining tracks whose identities are already present changes nothing.
proof fn lemma_joint_known(a: Seq<TrackLife>, b: Seq<TrackLife>)
    requires
        forall|k: int| 0 <= k < b.len() ==> has_id(a, (#[trigger] b[k]).track_id()),
    ensures
        joint_lives(a, b) == a,
    decreases b.len(),
{
    if b.len() > 0 {
        lemma_joint_known(a, b.drop_last());
        assert(has_id(a, b[b.len() - 1].track_id()));
    }
}

/// Joining, after tracks whose identities are already present, tracks with
/// consecutive identities from `n` on, above every identity present,
/// appends the latter.
proof fn lemma_joint_known_then_new(a: Seq<TrackLife>, b: Seq<TrackLife>, m: int, n: int)
    requires
        0 <= m <= b.len(),
        forall|k: int| 0 <= k < m ==> has_id(a, (#[trigger] b[k]).track_id()),
        forall|k: int| m <= k < b.len() ==> (#[trigger] b[k]).track_id() == n + (k - m),
        forall|i: int| 0 <= i < a.len() ==> (#[trigger] a[i]).track_id() < n,
    ensures
        joint_lives(a, b) == a + b.subrange(m, b.len() as int),
    decreases b.len(),
{
    if b.len() == m {
        lemma_joint_known(a, b);
        assert(b.subrange(m, b.len() as int) =~= Seq::<TrackLife>::empty());
        assert(a + Seq::<TrackLife>::empty() =~= a);
    } else {
        let d = b.drop_last();
        lemma_joint_known_then_new(a, d, m, n);
        let j = joint_lives(a, d);
        assert(j == a + d.subrange(m, d.len() as int));
        let last = b[b.len() - 1];
        assert(last.track_id() == n + (b.len() - 1 - m));
        if has_id(j, last.track_id()) {
            let q = choose|q: int| 0 <= q < j.len() && (#[trigger] j[q]).track_id() == last.track_id();
            if q < a.len() {
                assert(j[q] == a[q]);
            } else {
                assert(j[q] == d[m + (q - a.len())]);
            }
            assert(false);
        }
        assert(a + b.subrange(m, b.len() as int) =~= j.push(last));
    }
}

/// Selecting from a strictly increasing list gives a strictly increasing
/// list.
proof fn lemma_select_increasing(s: Seq<usize>, keep: Seq<bool>)
    requires
        strictly_increasing(s),
    ensures
        strictly_increasing(select(s, keep)),
    decreases s.len(),
{
    if s.len() > 0 {
        let d = s.drop_last();
        assert(strictly_increasing(d)) by {
            assert forall|a: int, b: int| 0 <= a < b < d.len() implies #[trigger] d[a] < #[trigger] d[b] by {
                assert(d[a] == s[a] && d[b] == s[b]);
            }
        }
        lemma_select_increasing(d, keep);
        lemma_select_from(d, keep);
        let r = select(d, keep);
        if keep[s.len() - 1] {
            let rr = r.push(s.last());
            assert forall|a: int, b: int| 0 <= a < b < rr.len() implies #[trigger] rr[a] < #[trigger] rr[b] by {
                if b < r.len() {
                    assert(rr[a] == r[a] && rr[b] == r[b]);
                } else {
                    assert(d.contains(r[a]));
                    let j = choose|j: int| 0 <= j < d.len() && d[j] == r[a];
                    assert(s[j] == rr[a] && s[s.len() - 1] == rr[b]);
                }
            }
        }
    }
}

/// Whether every element of a list of indices is below `n`.
pub open spec fn indices_below(s: Seq<usize>, n: int) -> bool {
    forall|i: int| 0 <= i < s.len() ==> #[trigger] s[i] < n
}

/// Whether every track of a list is a fresh detection with the index of one
/// of `n` detections.
pub open spec fn fresh_ok(s: Seq<TrackLife>, n: int) -> bool {
    forall|i: int| 0 <= i < s.len() ==> ((#[trigger] s[i]) matches TrackLife::Inactive { det_idx: Some(k) } && k < n)
}

/// Which association a cost question belongs to; each has its own cost
/// threshold.
#[derive(Debug, Clone, Copy, PartialEq, Eq, Structural)]
pub enum Stage {
    /// Known tracks against confident detections.
    HighScore,
    /// Tracks still unmatched against the less confident detections.
    LowScore,
    /// Unconfirmed tracks against the confident detections left over.
    Unconfirmed,
}

/// The multi-object tracker. The payload `P` of a track stands for its box,
/// score and motion state, which the caller computes.
pub struct ByteTrack<P> {
    max_time_lost: usize,
    frame_id: Counter,
    next_id: Counter,
    tracked_stracks: Vec<STrack<P>>,
    lost_stracks: Vec<STrack<P>>,
    removed_stracks: Vec<STrack<P>>,
}

impl<P> ByteTrack<P> {
    /// The number of the next frame.
    pub closed spec fn frame_next(&self) -> int {
        self.frame_id@ as int
    }

    /// The identity the next new track takes.
    pub closed spec fn id_next(&self) -> int {
        self.next_id@ as int
    }

    /// How many frames a lost track is kept before it is removed.
    pub closed spec fn max_time_lost(&self) -> usize {
        self.max_time_lost
    }

    /// The tracks being followed.
    pub closed spec fn followed(&self) -> Seq<TrackLife> {
        lives(self.tracked_stracks@)
    }

    /// The payloads of the tracks being followed, in the same order.
    pub closed spec fn followed_data(&self) -> Seq<P> {
        self.tracked_stracks@.map_values(|t: STrack<P>| t.data)
    }

    /// The tracks lost for now.
    pub closed spec fn lost(&self) -> Seq<TrackLife> {
        lives(self.lost_stracks@)
    }

    /// The tracks given up.
    pub closed spec fn removed(&self) -> Seq<TrackLife> {
        lives(self.removed_stracks@)
    }

    /// The tracker's invariant: every kept track is sound for the frame and
    /// identity counters, and no two tracks followed share an identity.
    pub closed spec fn wf(&self) -> bool {
        &&& tracks_ok(self.followed(), self.frame_next(), self.id_next())
        &&& tracks_ok(self.lost(), self.frame_next(), self.id_next())
        &&& tracks_ok(self.removed(), self.frame_next(), self.id_next())
        &&& distinct_ids(self.followed())
        &&& all_tracked(self.followed())
        &&& self.lost().len() == 0
    }

    /// A tracker with no tracks, whose first frame is numbered 1 and whose
    /// first track identity is 0.
    pub fn new(max_time_lost: usize) -> (t: Self)
        ensures
            t.wf(),
            t.frame_next() == 1,
            t.id_next() == 0,
            t.max_time_lost() == max_time_lost,
            t.followed() == Seq::<TrackLife>::empty(),
            t.lost() == Seq::<TrackLife>::empty(),
            t.removed() == Seq::<TrackLife>::empty(),
    {
        let t = ByteTrack {
            max_time_lost,
            frame_id: Counter::with_start(1),
            next_id: Counter::new(),
            tracked_stracks: Vec::new(),
            lost_stracks: Vec::new(),
            removed_stracks: Vec::new(),
        };
        assert(t.followed() =~= Seq::<TrackLife>::empty());
        assert(t.lost() =~= Seq::<TrackLife>::empty());
        assert(t.removed() =~= Seq::<TrackLife>::empty());
        t
    }

    /// The number of the next frame.
    pub fn next_frame(&self) -> (r: usize)
        ensures
            r == self.frame_next(),
    {
        self.frame_id.current()
    }

    /// The identity the next new track takes.
    pub fn next_track_id(&self) -> (r: usize)
        ensures
            r == self.id_next(),
    {
        self.next_id.current()
    }

    /// The tracks being followed.
    pub fn tracked_stracks(&self) -> (r: &[STrack<P>])
        ensures
            lives(r@) == self.followed(),
    {
        self.tracked_stracks.as_slice()
    }

    /// The tracks lost for now.
    pub fn lost_stracks(&self) -> (r: &[STrack<P>])
        ensures
            lives(r@) == self.lost(),
    {
        self.lost_stracks.as_slice()
    }

    /// The tracks given up.
    pub fn removed_stracks(&self) -> (r: &[STrack<P>])
        ensures
            lives(r@) == self.removed(),
    {
        self.removed_stracks.as_slice()
    }
}

/// The index of the detection a track carries, or -1 when it carries none.
pub open spec fn det_index(t: TrackLife) -> int {
    match t.det_idx() {
        Some(k) => k as int,
        None => -1,
    }
}

/// Whether the detection indices carried along a list strictly increase.
pub open spec fn dets_increasing(s: Seq<TrackLife>) -> bool {
    forall|a: int, b: int| 0 <= a < b < s.len() ==> det_index(#[trigger] s[a]) < det_index(#[trigger] s[b])
}

/// Whether a list of indices strictly increases.
pub open spec fn strictly_increasing(s: Seq<usize>) -> bool {
    forall|a: int, b: int| 0 <= a < b < s.len() ==> #[trigger] s[a] < #[trigger] s[b]
}

/// Whether every track of a list is a fresh detection whose index is
/// flagged in `flags`.
pub open spec fn flagged_fresh(s: Seq<TrackLife>, flags: Seq<bool>) -> bool {
    forall|i: int|
        0 <= i < s.len() ==> ((#[trigger] s[i]) matches TrackLife::Inactive { det_idx: Some(k) } && k < flags.len()
            && flags[k as int])
}

/// Whether `t` is a track started in frame `frame` under the identity `id`
/// from a detection flagged both `high` and `confident`: followed, with an
/// empty tracklet, and carrying that detection's index.
pub open spec fn born_track(t: TrackLife, id: int, frame: int, high: Seq<bool>, confident: Seq<bool>) -> bool {
    &&& t is Active
    &&& t->Active_0.track_id == id
    &&& t->Active_0.frame_id == frame
    &&& t->Active_0.start_frame == frame
    &&& t->Active_0.tracklet_len == 0
    &&& t->Active_0.state == TrackState::Tracking
    &&& t->Active_0.det_idx matches Some(k) && k < high.len() && high[k as int] && confident[k as int]
}

/// The tracks started in frame `frame` from the fresh tracks `sel`, in
/// order, under the identities `n`, `n + 1`, ...: followed, with an empty
/// tracklet, each carrying its detection's index.
pub open spec fn start_lives(sel: Seq<TrackLife>, n: int, frame: int) -> Seq<TrackLife> {
    Seq::new(
        sel.len(),
        |k: int|
            TrackLife::Active(
                ActiveSTrack {
                    track_id: (n + k) as usize,
                    frame_id: frame as usize,
                    start_frame: frame as usize,
                    tracklet_len: 0,
                    state: TrackState::Tracking,
                    det_idx: sel[k].det_idx(),
                },
            ),
    )
}

/// One flag per fresh track of `d`: whether its detection is confident.
pub open spec fn confident_flags(d: Seq<TrackLife>, confident: Seq<bool>) -> Seq<bool> {
    Seq::new(d.len(), |j: int| confident[det_index(d[j])])
}

/// The tracks started in frame `frame` from those fresh tracks of `d` whose
/// detection is confident, in order, under the identities `n`, `n + 1`, ...
pub open spec fn born_lives(d: Seq<TrackLife>, confident: Seq<bool>, n: int, frame: int) -> Seq<TrackLife> {
    start_lives(select(d, confident_flags(d, confident)), n, frame)
}

/// How many fresh tracks of `d` have a confident detection.
pub open spec fn confident_count(d: Seq<TrackLife>, confident: Seq<bool>) -> nat
    decreases d.len(),
{
    if d.len() == 0 {
        0
    } else {
        confident_count(d.drop_last(), confident) + if confident[det_index(d.last())] {
            1nat
        } else {
            0nat
        }
    }
}

/// How many detections are flagged both `high` and `confident`: the most
/// tracks one frame can start.
pub open spec fn startable_count(high: Seq<bool>, confident: Seq<bool>) -> nat {
    confident_count(fresh_lives(high), confident)
}

proof fn lemma_select_same_flags<A>(s: Seq<A>, k1: Seq<bool>, k2: Seq<bool>)
    requires
        forall|i: int| 0 <= i < s.len() ==> k1[i] == k2[i],
    ensures
        select(s, k1) == select(s, k2),
    decreases s.len(),
{
    if s.len() > 0 {
        lemma_select_same_flags(s.drop_last(), k1, k2);
    }
}

proof fn lemma_select_confident_len(d: Seq<TrackLife>, confident: Seq<bool>)
    ensures
        select(d, confident_flags(d, confident)).len() == confident_count(d, confident),
    decreases d.len(),
{
    if d.len() > 0 {
        let d2 = d.drop_last();
        lemma_select_confident_len(d2, confident);
        lemma_select_same_flags(d2, confident_flags(d, confident), confident_flags(d2, confident));
    }
}

/// Picking tracks at increasing places never raises the count of confident
/// ones.
proof fn lemma_confident_count_sub(hb: Seq<TrackLife>, left: Seq<usize>, confident: Seq<bool>)
    requires
        strictly_increasing(left),
        indices_below(left, hb.len() as int),
    ensures
        confident_count(lives_at(hb, left), confident) <= confident_count(hb, confident),
    decreases hb.len(),
{
    if left.len() == 0 {
        assert(lives_at(hb, left).len() == 0);
    } else {
        let n = hb.len() - 1;
        let h2 = hb.drop_last();
        let last = left.last();
        assert(left[left.len() - 1] < hb.len());
        if last == n {
            let l2 = left.drop_last();
            assert forall|i: int| 0 <= i < l2.len() implies #[trigger] l2[i] < h2.len() by {
                assert(left[i] < left[left.len() - 1]);
            }
            assert forall|a: int, b: int| 0 <= a < b < l2.len() implies #[trigger] l2[a] < #[trigger] l2[b] by {
                assert(left[a] < left[b]);
            }
            lemma_confident_count_sub(h2, l2, confident);
            assert(lives_at(hb, left).drop_last() =~= lives_at(h2, l2));
            assert(lives_at(hb, left).last() == hb.last());
        } else {
            assert forall|i: int| 0 <= i < left.len() implies #[trigger] left[i] < h2.len() by {
                if i < left.len() - 1 {
                    assert(left[i] < left[left.len() - 1]);
                }
            }
            lemma_confident_count_sub(h2, left, confident);
            assert(lives_at(hb, left) =~= lives_at(h2, left));
        }
    }
}

/// The tracks started from the first `k` fresh tracks of `d` are no more
/// than those of all of `d` with a confident detection.
proof fn lemma_prefix_started(d: Seq<TrackLife>, confident: Seq<bool>, k: int)
    requires
        0 <= k <= d.len(),
        d.len() <= usize::MAX,
    ensures
        select(d.take(k), confident_flags(d, confident)).len() <= confident_count(d, confident),
{
    let t = d.take(k);
    lemma_select_same_flags(t, confident_flags(d, confident), confident_flags(t, confident));
    lemma_select_confident_len(t, confident);
    let idx = Seq::new(k as nat, |i: int| i as usize);
    assert forall|i: int| 0 <= i < k implies idx[i] as int == i by {}
    assert forall|a: int, b: int| 0 <= a < b < idx.len() implies #[trigger] idx[a] < #[trigger] idx[b] by {}
    assert(lives_at(d, idx) =~= t);
    lemma_confident_count_sub(d, idx, confident);
}

/// The tracks of `s` with no detection index.
pub open spec fn unindexed(s: Seq<TrackLife>) -> Seq<TrackLife> {
    s.map_values(|l: TrackLife| l.with_det_idx(None))
}

/// Whether `b` comes from `a` by `k` successive clones.
pub open spec fn clone_chain<T: Clone>(a: T, b: T, k: nat) -> bool
    decreases k,
{
    if k == 0 {
        b == a
    } else {
        exists|m: T| #[trigger] cloned(a, m) && clone_chain(m, b, (k - 1) as nat)
    }
}

/// Whether `b` comes from `a` by some number of clones.
pub open spec fn copied<T: Clone>(a: T, b: T) -> bool {
    exists|k: nat| #[trigger] clone_chain(a, b, k)
}

proof fn lemma_chain_extend<T: Clone>(a: T, b: T, c: T, k: nat)
    requires
        clone_chain(a, b, k),
        cloned(b, c),
    ensures
        clone_chain(a, c, k + 1),
    decreases k,
{
    if k == 0 {
        assert(clone_chain(c, c, 0));
        assert(cloned(a, c) && clone_chain(c, c, 0));
    } else {
        let m = choose|m: T| #[trigger] cloned(a, m) && clone_chain(m, b, (k - 1) as nat);
        lemma_chain_extend(m, b, c, (k - 1) as nat);
        assert(cloned(a, m) && clone_chain(m, c, k));
    }
}

/// A value is a copy of itself.
pub proof fn lemma_copied_refl<T: Clone>(a: T)
    ensures
        copied(a, a),
{
    assert(clone_chain(a, a, 0));
}

/// A clone of a copy of `a` is a copy of `a`.
pub proof fn lemma_copied_clone<T: Clone>(a: T, b: T, c: T)
    requires
        copied(a, b),
        cloned(b, c),
    ensures
        copied(a, c),
{
    let k = choose|k: nat| #[trigger] clone_chain(a, b, k);
    lemma_chain_extend(a, b, c, k);
}

/// When a list of copies has the same bookkeeping as its source and no two
/// tracks of the source share an identity, each copy is a copy of the
/// track at its own place.
proof fn lemma_copies_in_place<P: Clone>(r: Seq<STrack<P>>, src: Seq<STrack<P>>)
    requires
        copies_of(r, src),
        lives(r) == lives(src),
        distinct_ids(lives(src)),
    ensures
        forall|i: int| 0 <= i < r.len() ==> cloned(src[i].data, #[trigger] r[i].data),
{
    assert forall|i: int| 0 <= i < r.len() implies cloned(src[i].data, #[trigger] r[i].data) by {
        assert(lives(r).len() == r.len() && lives(src).len() == src.len());
        assert(i < src.len());
        let j = choose|j: int| 0 <= j < src.len() && (#[trigger] r[i])@ == src[j]@ && cloned(src[j].data, r[i].data);
        assert(lives(r)[i] == r[i]@);
        assert(lives(src)[i] == src[i]@ && lives(src)[j] == src[j]@);
        if i != j {
            assert(lives(src)[i].track_id() != lives(src)[j].track_id());
        }
    }
}

/// The detections that the answer `ans` to an assignment of `nrows` tracks
/// to `ncols` detections leaves to no track, in order.
pub open spec fn left_over(nrows: usize, ncols: usize, ans: (Vec<usize>, Vec<bool>)) -> Seq<usize> {
    assignment_unmatched_cols(nrows, ncols, fitted(ans, nrows, ncols).0, fitted(ans, nrows, ncols).1)
}

/// With no rows, every column is left over.
proof fn lemma_unmatched_cols_all(ncols: usize, x: Seq<usize>, accept: Seq<bool>)
    ensures
        assignment_unmatched_cols(0, ncols, x, accept) == Seq::new(ncols as nat, |c: int| c as usize),
{
    let flags = Seq::new(ncols as nat, |c: int| !col_matched(0, ncols, x, accept, c));
    assert forall|c: int| 0 <= c < ncols implies flags[c] by {
        if col_matched(0, ncols, x, accept, c) {
            let r = choose|r: int| 0 <= r < 0 && #[trigger] row_matched(ncols, x, accept, r) && x[r] == c;
        }
    }
    lemma_select_all(Seq::new(ncols as nat, |c: int| c as usize), flags);
}

/// With no tracks, every detection is left over.
proof fn lemma_left_over_all(ncols: usize, ans: (Vec<usize>, Vec<bool>))
    ensures
        left_over(0, ncols, ans) == Seq::new(ncols as nat, |c: int| c as usize),
{
    lemma_unmatched_cols_all(ncols, fitted(ans, 0, ncols).0, fitted(ans, 0, ncols).1);
}

/// One fresh track per detection flagged in `flags`, in order, each with its
/// detection's index.
pub open spec fn fresh_lives(flags: Seq<bool>) -> Seq<TrackLife> {
    select(Seq::new(flags.len(), |i: int| TrackLife::Inactive { det_idx: Some(i as usize) }), flags)
}

/// Splits the detections of a frame into fresh tracks: those flagged in
/// `high` and those flagged in `low`, each with its detection's index.
fn split_detections<P: Clone>(detections: &[P], high: &Vec<bool>, low: &Vec<bool>) -> (r: (
    Vec<STrack<P>>,
    Vec<STrack<P>>,
))
    requires
        high.len() == detections.len(),
        low.len() == detections.len(),
    ensures
        fresh_ok(lives(r.0@), detections.len() as int),
        fresh_ok(lives(r.1@), detections.len() as int),
        flagged_fresh(lives(r.0@), high@),
        flagged_fresh(lives(r.1@), low@),
        dets_increasing(lives(r.0@)),
        r.0.len() <= detections.len(),
        lives(r.0@) == fresh_lives(high@),
        lives(r.1@) == fresh_lives(low@),
        forall|k: int| 0 <= k < r.0.len() ==> cloned(detections@[det_index(r.0@[k]@)], #[trigger] r.0@[k].data),
        forall|k: int| 0 <= k < r.1.len() ==> cloned(detections@[det_index(r.1@[k]@)], #[trigger] r.1@[k].data),
{
    let ghost all = Seq::new(detections.len() as nat, |i: int| TrackLife::Inactive { det_idx: Some(i as usize) });
    let mut hi: Vec<STrack<P>> = Vec::new();
    let mut lo: Vec<STrack<P>> = Vec::new();
    let mut idx: usize = 0;
    while idx < detections.len()
        invariant
            idx <= detections.len(),
            high.len() == detections.len(),
            low.len() == detections.len(),
            fresh_ok(lives(hi@), idx as int),
            fresh_ok(lives(lo@), idx as int),
            flagged_fresh(lives(hi@), high@),
            flagged_fresh(lives(lo@), low@),
            dets_increasing(lives(hi@)),
            hi.len() <= idx,
            all == Seq::new(detections.len() as nat, |i: int| TrackLife::Inactive { det_idx: Some(i as usize) }),
            lives(hi@) == select(all.take(idx as int), high@),
            lives(lo@) == select(all.take(idx as int), low@),
            forall|k: int| 0 <= k < hi.len() ==> cloned(detections@[det_index(hi@[k]@)], #[trigger] hi@[k].data),
            forall|k: int| 0 <= k < lo.len() ==> cloned(detections@[det_index(lo@[k]@)], #[trigger] lo@[k].data),
        decreases detections.len() - idx,
    {
        proof {
            lemma_select_push(all, high@, idx as int);
            lemma_select_push(all, low@, idx as int);
        }
        let ghost old_hv = hi@;
        let ghost old_lv = lo@;
        let ghost old_hi = lives(hi@);
        let ghost old_lo = lives(lo@);
        if high[idx] {
            hi.push(STrack::from_detection(detections[idx].clone(), idx));
            assert(lives(hi@) =~= old_hi.push(TrackLife::Inactive { det_idx: Some(idx) }));
            proof {
                let h = lives(hi@);
                assert forall|a: int, b: int| 0 <= a < b < h.len() implies det_index(#[trigger] h[a]) < det_index(#[trigger] h[b]) by {
                    assert(h[a] == old_hi[a]);
                    assert(old_hi[a] matches TrackLife::Inactive { det_idx: Some(k) } && k < idx);
                    if b < old_hi.len() {
                        assert(h[b] == old_hi[b]);
                    }
                }
            }
        }
        if low[idx] {
            lo.push(STrack::from_detection(detections[idx].clone(), idx));
            assert(lives(lo@) =~= old_lo.push(TrackLife::Inactive { det_idx: Some(idx) }));
        }
        proof {
            assert forall|k: int| 0 <= k < hi.len() implies cloned(detections@[det_index(hi@[k]@)], #[trigger] hi@[k].data) by {
                if k < old_hv.len() {
                    assert(hi@[k] == old_hv[k]);
                }
            }
            assert forall|k: int| 0 <= k < lo.len() implies cloned(detections@[det_index(lo@[k]@)], #[trigger] lo@[k].data) by {
                if k < old_lv.len() {
                    assert(lo@[k] == old_lv[k]);
                }
            }
        }
        idx = idx + 1;
        proof {
            let h = lives(hi@);
            assert forall|i: int| 0 <= i < h.len() implies ((#[trigger] h[i]) matches TrackLife::Inactive { det_idx: Some(k) } && k < idx) by {
                if i < old_hi.len() {
                    assert(h[i] == old_hi[i]);
                }
            }
            assert forall|i: int| 0 <= i < h.len() implies ((#[trigger] h[i]) matches TrackLife::Inactive { det_idx: Some(k) }
                && k < high@.len() && high@[k as int]) by {
                if i < old_hi.len() {
                    assert(h[i] == old_hi[i]);
                }
            }
            let l = lives(lo@);
            assert forall|i: int| 0 <= i < l.len() implies ((#[trigger] l[i]) matches TrackLife::Inactive { det_idx: Some(k) } && k < idx) by {
                if i < old_lo.len() {
                    assert(l[i] == old_lo[i]);
                }
            }
            assert forall|i: int| 0 <= i < l.len() implies ((#[trigger] l[i]) matches TrackLife::Inactive { det_idx: Some(k) }
                && k < low@.len() && low@[k as int]) by {
                if i < old_lo.len() {
                    assert(l[i] == old_lo[i]);
                }
            }
        }
    }
    assert(all.take(detections.len() as int) =~= all);
    (hi, lo)
}

/// The assignment answer as it is read: the caller's when it has an entry
/// for each of the `nrows` rows, otherwise one that leaves every row
/// unmatched.
pub open spec fn fitted(answer: (Vec<usize>, Vec<bool>), nrows: usize, ncols: usize) -> (Seq<usize>, Seq<bool>) {
    if answer.0.len() >= nrows && answer.1.len() >= nrows {
        (answer.0@, answer.1@)
    } else {
        (Seq::new(nrows as nat, |i: int| ncols), Seq::new(nrows as nat, |i: int| false))
    }
}

/// Track `t` matched to detection `d` in frame `frame`: it takes the
/// detection's index and the frame, and is followed; a track that was
/// followed extends its tracklet, another one starts it afresh.
pub open spec fn matched_life(t: TrackLife, d: TrackLife, frame: usize) -> TrackLife {
    let a = t->Active_0;
    TrackLife::Active(
        ActiveSTrack {
            tracklet_len: if t.is_tracked() {
                (a.tracklet_len + 1) as usize
            } else {
                0
            },
            state: TrackState::Tracking,
            frame_id: frame,
            det_idx: d.det_idx(),
            ..a
        },
    )
}

/// The tracks of `s` matched by `m`, each to its detection of `d`.
pub open spec fn matched_lives(s: Seq<TrackLife>, d: Seq<TrackLife>, m: Seq<(usize, usize)>, frame: usize) -> Seq<
    TrackLife,
> {
    Seq::new(m.len(), |k: int| matched_life(s[m[k].0 as int], d[m[k].1 as int], frame))
}

/// One flag per match: whether the matched track of `s` was being
/// followed (`want`) or not.
pub open spec fn match_flags(s: Seq<TrackLife>, m: Seq<(usize, usize)>, want: bool) -> Seq<bool> {
    Seq::new(m.len(), |k: int| s[m[k].0 as int].is_tracked() == want)
}

/// What matching the tracks `s` against the detections `d` in frame
/// `frame` with the assignment `(x, accept)` gives: the rows left over, the
/// columns left over, the matched tracks that were being followed and the
/// matched tracks that were not, each updated with its detection, in the
/// order of the rows.
pub open spec fn association_outcome(s: Seq<TrackLife>, d: Seq<TrackLife>, frame: usize, xa: (Seq<usize>, Seq<bool>)) -> (
    Seq<usize>,
    Seq<usize>,
    Seq<TrackLife>,
    Seq<TrackLife>,
) {
    let nrows = s.len() as usize;
    let ncols = d.len() as usize;
    let m = assignment_matches(nrows, ncols, xa.0, xa.1);
    let ml = matched_lives(s, d, m, frame);
    (
        assignment_unmatched_rows(nrows, ncols, xa.0, xa.1),
        assignment_unmatched_cols(nrows, ncols, xa.0, xa.1),
        select(ml, match_flags(s, m, true)),
        select(ml, match_flags(s, m, false)),
    )
}

/// The cost answer `(x, accept)` when it fits `nrows` rows; otherwise an
/// answer that leaves every row unmatched.
fn fitted_answer(answer: (Vec<usize>, Vec<bool>), nrows: usize, ncols: usize) -> (r: (
    Vec<usize>,
    Vec<bool>,
))
    ensures
        r.0.len() >= nrows,
        r.1.len() >= nrows,
        (r.0@, r.1@) == fitted(answer, nrows, ncols),
{
    let (x, accept) = answer;
    if x.len() >= nrows && accept.len() >= nrows {
        (x, accept)
    } else {
        let mut x2: Vec<usize> = Vec::new();
        let mut a2: Vec<bool> = Vec::new();
        let mut i: usize = 0;
        while i < nrows
            invariant
                i <= nrows,
                x2.len() == i,
                a2.len() == i,
                forall|k: int| 0 <= k < i ==> x2@[k] == ncols && !a2@[k],
            decreases nrows - i,
        {
            x2.push(ncols);
            a2.push(false);
            i = i + 1;
        }
        assert(x2@ =~= Seq::new(nrows as nat, |i: int| ncols));
        assert(a2@ =~= Seq::new(nrows as nat, |i: int| false));
        (x2, a2)
    }
}

/// Matches `stracks` against `detections` with the caller's assignment
/// and records each matched track, updated in frame `frame_id`, into
/// `activated` when it was being followed and into `refind` otherwise.
/// Gives the indices of the tracks and of the detections left unmatched.
fn association<P: Clone, As, Ab>(
    stracks: &[STrack<P>],
    detections: &[STrack<P>],
    stage: Stage,
    frame_id: usize,
    activated: &mut Vec<STrack<P>>,
    refind: &mut Vec<STrack<P>>,
    assign: &As,
    absorb: &Ab,
    Ghost(n): Ghost<int>,
) -> (r: (Vec<usize>, Vec<usize>)) where
    As: Fn(&[STrack<P>], &[STrack<P>], Stage) -> (Vec<usize>, Vec<bool>),
    Ab: Fn(&P, &P) -> P,

    requires
        forall|a: &[STrack<P>], b: &[STrack<P>], st: Stage| assign.requires((a, b, st)),
        forall|a: &P, b: &P| absorb.requires((a, b)),
        tracks_ok(lives(stracks@), frame_id as int, n),
        tracks_ok(lives(old(activated)@), frame_id + 1, n),
        tracks_ok(lives(old(refind)@), frame_id + 1, n),
    ensures
        tracks_ok(lives(final(activated)@), frame_id + 1, n),
        tracks_ok(lives(final(refind)@), frame_id + 1, n),
        indices_below(r.0@, stracks.len() as int),
        indices_below(r.1@, detections.len() as int),
        r.0.len() <= stracks.len(),
        r.1.len() <= detections.len(),
        strictly_increasing(r.1@),
        all_tracked(lives(old(activated)@)) ==> all_tracked(lives(final(activated)@)),
        all_tracked(lives(stracks@)) ==> final(refind)@ == old(refind)@,
        old(activated)@.is_prefix_of(final(activated)@),
        old(refind)@.is_prefix_of(final(refind)@),
        forall|k: int|
            old(activated).len() <= k < final(activated).len() ==> has_id(
                lives(stracks@),
                (#[trigger] lives(final(activated)@)[k]).track_id(),
            ),
        (exists|ans: (Vec<usize>, Vec<bool>)|
            #[trigger] assign.ensures((stracks, detections, stage), ans) && association_outcome(
                lives(stracks@),
                lives(detections@),
                frame_id,
                fitted(ans, stracks.len(), detections.len()),
            ) == (
                r.0@,
                r.1@,
                lives(final(activated)@).skip(old(activated).len() as int),
                lives(final(refind)@).skip(old(refind).len() as int),
            )),
{
    let ghost a0 = activated@;
    let ghost r0 = refind@;
    let nrows = stracks.len();
    let ncols = detections.len();
    let answer = assign(stracks, detections, stage);
    let ghost ans = answer;
    let (x, accept) = fitted_answer(answer, nrows, ncols);
    let (matches, unmatched_tracks, unmatched_detections) = split_assignment(nrows, ncols, &x, &accept);
    let ghost all_rows = Seq::new(nrows as nat, |r: int| (r as usize, x@[r]));
    let ghost keep_rows = Seq::new(nrows as nat, |r: int| row_matched(ncols, x@, accept@, r));
    proof {
        lemma_select_kept(all_rows, keep_rows);
        lemma_select_from(Seq::new(nrows as nat, |r: int| r as usize),
            Seq::new(nrows as nat, |r: int| !row_matched(ncols, x@, accept@, r)));
        lemma_select_from(Seq::new(ncols as nat, |c: int| c as usize),
            Seq::new(ncols as nat, |c: int| !col_matched(nrows, ncols, x@, accept@, c)));
        let ut = unmatched_tracks@;
        assert forall|i: int| 0 <= i < ut.len() implies #[trigger] ut[i] < nrows by {
            assert(Seq::new(nrows as nat, |r: int| r as usize).contains(ut[i]));
        }
        let ud = unmatched_detections@;
        assert forall|i: int| 0 <= i < ud.len() implies #[trigger] ud[i] < ncols by {
            assert(Seq::new(ncols as nat, |c: int| c as usize).contains(ud[i]));
        }
    }
    let ghost sl = lives(stracks@);
    let ghost ml = matched_lives(sl, lives(detections@), matches@, frame_id);
    let ghost ft = match_flags(sl, matches@, true);
    let ghost ff = match_flags(sl, matches@, false);
    let mut m: usize = 0;
    while m < matches.len()
        invariant
            m <= matches.len(),
            sl == lives(stracks@),
            ml == matched_lives(sl, lives(detections@), matches@, frame_id),
            ft == match_flags(sl, matches@, true),
            ff == match_flags(sl, matches@, false),
            lives(activated@) == lives(a0) + select(ml.take(m as int), ft),
            lives(refind@) == lives(r0) + select(ml.take(m as int), ff),
            a0.is_prefix_of(activated@),
            r0.is_prefix_of(refind@),
            matches@ == select(all_rows, keep_rows),
            all_rows == Seq::new(nrows as nat, |r: int| (r as usize, x@[r])),
            keep_rows == Seq::new(nrows as nat, |r: int| row_matched(ncols, x@, accept@, r)),
            forall|i: int| 0 <= i < matches.len() ==> kept_element(all_rows, keep_rows, #[trigger] matches@[i]),
            nrows == stracks.len(),
            ncols == detections.len(),
            forall|a: &P, b: &P| absorb.requires((a, b)),
            tracks_ok(lives(stracks@), frame_id as int, n),
            tracks_ok(lives(activated@), frame_id + 1, n),
            tracks_ok(lives(refind@), frame_id + 1, n),
            all_tracked(lives(a0)) ==> all_tracked(lives(activated@)),
            all_tracked(lives(stracks@)) ==> refind@ == r0,
            forall|k: int|
                a0.len() <= k < activated.len() ==> has_id(lives(stracks@), (#[trigger] lives(activated@)[k]).track_id()),
        decreases matches.len() - m,
    {
        let (ti, di) = matches[m];
        proof {
            assert(kept_element(all_rows, keep_rows, matches@[m as int]));
            let j = choose|j: int| 0 <= j < all_rows.len() && keep_rows[j] && all_rows[j] == matches@[m as int];
            assert(ti == j && di == x@[j] && row_matched(ncols, x@, accept@, j));
            assert(lives(stracks@)[ti as int] == stracks@[ti as int]@);
            assert(track_ok(lives(stracks@)[ti as int], frame_id as int, n));
        }
        let mut track = stracks[ti].duplicate();
        track.set_det_idx(detections[di].det_idx());
        let data = absorb(&track.data, &detections[di].data);
        proof {
            assert(lives(detections@)[di as int] == detections@[di as int]@);
            lemma_select_push(ml, ft, m as int);
            lemma_select_push(ml, ff, m as int);
        }
        if track.is_tracked() {
            track.update(frame_id);
            track.data = data;
            let ghost old_a = lives(activated@);
            let ghost old_av = activated@;
            let ghost tl = track@;
            assert(tl == ml[m as int]);
            activated.push(track);
            proof {
                assert(lives(activated@) =~= old_a.push(activated@[activated.len() - 1]@));
                assert(lives(activated@) =~= lives(a0) + select(ml.take(m + 1), ft));
                assert(tl.track_id() == lives(stracks@)[ti as int].track_id());
                assert forall|k: int| a0.len() <= k < activated.len() implies has_id(
                    lives(stracks@),
                    (#[trigger] lives(activated@)[k]).track_id(),
                ) by {
                    if k < old_av.len() {
                        assert(lives(activated@)[k] == old_a[k]);
                    } else {
                        assert(lives(activated@)[k] == tl);
                    }
                }
                assert forall|k: int| 0 <= k < a0.len() implies activated@[k] == a0[k] by {
                    assert(activated@[k] == old_av[k]);
                }
                if all_tracked(lives(a0)) {
                    assert forall|k: int| 0 <= k < lives(activated@).len() implies (#[trigger] lives(activated@)[k]).is_tracked() by {
                        if k < old_av.len() {
                            assert(lives(activated@)[k] == old_a[k]);
                        }
                    }
                }
            }
        } else {
            proof {
                if all_tracked(lives(stracks@)) {
                    assert(lives(stracks@)[ti as int].is_tracked());
                }
            }
            track.reactivate(frame_id);
            track.data = data;
            let ghost old_r = lives(refind@);
            let ghost old_rv = refind@;
            assert(track@ == ml[m as int]);
            refind.push(track);
            proof {
                assert(lives(refind@) =~= old_r.push(refind@[refind.len() - 1]@));
                assert(lives(refind@) =~= lives(r0) + select(ml.take(m + 1), ff));
                assert forall|k: int| 0 <= k < r0.len() implies refind@[k] == r0[k] by {
                    assert(refind@[k] == old_rv[k]);
                }
            }
        }
        m = m + 1;
    }
    proof {
        assert(ml.take(matches.len() as int) =~= ml);
        assert(lives(activated@).skip(a0.len() as int) =~= select(ml, ft));
        assert(lives(refind@).skip(r0.len() as int) =~= select(ml, ff));
        assert(nrows == sl.len() as usize && ncols == lives(detections@).len() as usize);
        assert(association_outcome(sl, lives(detections@), frame_id, fitted(ans, nrows, ncols)) == (
            unmatched_tracks@,
            unmatched_detections@,
            lives(activated@).skip(a0.len() as int),
            lives(refind@).skip(r0.len() as int),
        ));
    }
    (unmatched_tracks, unmatched_detections)
}

/// Whether every new identity (from `n` on) of a list belongs to a track
/// started in frame `frame` with an empty tracklet.
pub open spec fn new_ids_fresh(s: Seq<TrackLife>, n: int, frame: int) -> bool {
    forall|i: int|
        0 <= i < s.len() && (#[trigger] s[i]).track_id() >= n ==> s[i]->Active_0.start_frame == frame
            && s[i]->Active_0.tracklet_len == 0
}

proof fn lemma_ok_fresh(s: Seq<TrackLife>, f: int, n: int, frame: int)
    requires
        tracks_ok(s, f, n),
    ensures
        new_ids_fresh(s, n, frame),
{
    assert forall|i: int| 0 <= i < s.len() && (#[trigger] s[i]).track_id() >= n implies
        s[i]->Active_0.start_frame == frame && s[i]->Active_0.tracklet_len == 0 by {
        assert(track_ok(s[i], f, n));
    }
}

proof fn lemma_fresh_select(s: Seq<TrackLife>, keep: Seq<bool>, n: int, frame: int)
    requires
        new_ids_fresh(s, n, frame),
    ensures
        new_ids_fresh(select(s, keep), n, frame),
{
    lemma_select_from(s, keep);
    let sel = select(s, keep);
    assert forall|i: int| 0 <= i < sel.len() && (#[trigger] sel[i]).track_id() >= n implies
        sel[i]->Active_0.start_frame == frame && sel[i]->Active_0.tracklet_len == 0 by {
        assert(s.contains(sel[i]));
        let j = choose|j: int| 0 <= j < s.len() && s[j] == sel[i];
        assert(s[j].track_id() >= n);
    }
}

proof fn lemma_fresh_joint(a: Seq<TrackLife>, b: Seq<TrackLife>, n: int, frame: int)
    requires
        new_ids_fresh(a, n, frame),
        new_ids_fresh(b, n, frame),
    ensures
        new_ids_fresh(joint_lives(a, b), n, frame),
{
    lemma_joint_from(a, b);
    let j = joint_lives(a, b);
    assert forall|i: int| 0 <= i < j.len() && (#[trigger] j[i]).track_id() >= n implies
        j[i]->Active_0.start_frame == frame && j[i]->Active_0.tracklet_len == 0 by {
        if a.contains(j[i]) {
            let k = choose|k: int| 0 <= k < a.len() && a[k] == j[i];
            assert(a[k].track_id() >= n);
        } else {
            assert(b.contains(j[i]));
            let k = choose|k: int| 0 <= k < b.len() && b[k] == j[i];
            assert(b[k].track_id() >= n);
        }
    }
}

proof fn lemma_push_ok(s: Seq<TrackLife>, x: TrackLife, f: int, n: int)
    requires
        tracks_ok(s, f, n),
        track_ok(x, f, n),
    ensures
        tracks_ok(s.push(x), f, n),
{
    assert forall|i: int| 0 <= i < s.push(x).len() implies track_ok(#[trigger] s.push(x)[i], f, n) by {
        if i < s.len() {
            assert(s.push(x)[i] == s[i]);
        }
    }
}

/// The tracks of `s` at the indices `idxs`, in that order.
pub open spec fn lives_at(s: Seq<TrackLife>, idxs: Seq<usize>) -> Seq<TrackLife> {
    Seq::new(idxs.len(), |i: int| s[idxs[i] as int])
}

/// One flag per track: whether it is being followed.
pub open spec fn tracked_flags(s: Seq<TrackLife>) -> Seq<bool> {
    Seq::new(s.len(), |i: int| s[i].is_tracked())
}

/// One flag per track: whether it is lost.
pub open spec fn lost_flags(s: Seq<TrackLife>) -> Seq<bool> {
    Seq::new(s.len(), |i: int| s[i]->Active_0.state == TrackState::Lost)
}

/// An active track marked lost.
pub open spec fn as_lost(l: TrackLife) -> TrackLife {
    TrackLife::Active(ActiveSTrack { state: TrackState::Lost, ..l->Active_0 })
}

/// Copies of the tracks of `s` at the indices `idxs` that are being followed.
fn followed_at<P: Clone>(s: &[STrack<P>], idxs: &Vec<usize>, Ghost(f): Ghost<int>, Ghost(n): Ghost<int>) -> (r: Vec<STrack<P>>)
    requires
        indices_below(idxs@, s.len() as int),
        tracks_ok(lives(s@), f, n),
    ensures
        tracks_ok(lives(r@), f, n),
        r.len() <= idxs.len(),
        forall|i: int| 0 <= i < r.len() ==> (#[trigger] lives(r@)[i]).is_tracked(),
        forall|i: int| 0 <= i < r.len() ==> has_id(lives(s@), (#[trigger] lives(r@)[i]).track_id()),
        lives(r@) == select(lives_at(lives(s@), idxs@), tracked_flags(lives_at(lives(s@), idxs@))),
        copies_of(r@, s@),
{
    let ghost at = lives_at(lives(s@), idxs@);
    let ghost fl = tracked_flags(lives_at(lives(s@), idxs@));
    let mut r: Vec<STrack<P>> = Vec::new();
    let mut i: usize = 0;
    while i < idxs.len()
        invariant
            i <= idxs.len(),
            r.len() <= i,
            indices_below(idxs@, s.len() as int),
            tracks_ok(lives(s@), f, n),
            tracks_ok(lives(r@), f, n),
            forall|q: int| 0 <= q < r.len() ==> (#[trigger] lives(r@)[q]).is_tracked(),
            forall|q: int| 0 <= q < r.len() ==> has_id(lives(s@), (#[trigger] lives(r@)[q]).track_id()),
            at == lives_at(lives(s@), idxs@),
            fl == tracked_flags(at),
            lives(r@) == select(at.take(i as int), fl),
            copies_of(r@, s@),
        decreases idxs.len() - i,
    {
        let k = idxs[i];
        assert(k < s.len());
        proof {
            lemma_select_push(at, fl, i as int);
            assert(at[i as int] == lives(s@)[k as int]);
            assert(lives(s@)[k as int] == s@[k as int]@);
        }
        if s[k].is_tracked() {
            let ghost old_r = lives(r@);
            let ghost old_rv = r@;
            r.push(s[k].duplicate());
            proof {
                assert(lives(r@) =~= old_r.push(s@[k as int]@));
                assert(lives(s@)[k as int] == s@[k as int]@);
                lemma_push_ok(old_r, s@[k as int]@, f, n);
                assert forall|q: int| 0 <= q < r.len() implies (#[trigger] lives(r@)[q]).is_tracked() by {
                    if q < old_r.len() {
                        assert(lives(r@)[q] == old_r[q]);
                    }
                }
                assert forall|q: int| 0 <= q < r.len() implies has_id(lives(s@), (#[trigger] lives(r@)[q]).track_id()) by {
                    if q < old_r.len() {
                        assert(lives(r@)[q] == old_r[q]);
                    } else {
                        assert(lives(r@)[q] == lives(s@)[k as int]);
                    }
                }
                assert forall|q: int| 0 <= q < r.len() implies exists|j: int|
                    0 <= j < s.len() && (#[trigger] r@[q])@ == s@[j]@ && cloned(s@[j].data, r@[q].data) by {
                    if q < old_rv.len() {
                        assert(r@[q] == old_rv[q]);
                    } else {
                        assert(r@[q]@ == s@[k as int]@ && cloned(s@[k as int].data, r@[q].data));
                    }
                }
            }
        }
        i = i + 1;
    }
    assert(at.take(idxs.len() as int) =~= at);
    r
}

/// Copies, marked lost, of the tracks of `s` at the indices `idxs` that are
/// lost.
fn newly_lost<P: Clone>(s: &[STrack<P>], idxs: &Vec<usize>, Ghost(f): Ghost<int>, Ghost(n): Ghost<int>) -> (r: Vec<STrack<P>>)
    requires
        indices_below(idxs@, s.len() as int),
        tracks_ok(lives(s@), f, n),
    ensures
        tracks_ok(lives(r@), f, n),
        (forall|i: int| 0 <= i < s.len() ==> (#[trigger] lives(s@)[i]).is_tracked()) ==> r.len() == 0,
        lives(r@) == select(lives_at(lives(s@), idxs@), lost_flags(lives_at(lives(s@), idxs@))).map_values(
            |l: TrackLife| as_lost(l),
        ),
        forall|q: int|
            0 <= q < r.len() ==> exists|j: int|
                0 <= j < s.len() && (#[trigger] r@[q])@ == as_lost(s@[j]@) && cloned(s@[j].data, r@[q].data),
{
    let ghost at = lives_at(lives(s@), idxs@);
    let ghost fl = lost_flags(lives_at(lives(s@), idxs@));
    let mut r: Vec<STrack<P>> = Vec::new();
    let mut i: usize = 0;
    while i < idxs.len()
        invariant
            i <= idxs.len(),
            indices_below(idxs@, s.len() as int),
            tracks_ok(lives(s@), f, n),
            tracks_ok(lives(r@), f, n),
            (forall|q: int| 0 <= q < s.len() ==> (#[trigger] lives(s@)[q]).is_tracked()) ==> r.len() == 0,
            at == lives_at(lives(s@), idxs@),
            fl == lost_flags(at),
            lives(r@) == select(at.take(i as int), fl).map_values(|l: TrackLife| as_lost(l)),
            forall|q: int|
                0 <= q < r.len() ==> exists|j: int|
                    0 <= j < s.len() && (#[trigger] r@[q])@ == as_lost(s@[j]@) && cloned(s@[j].data, r@[q].data),
        decreases idxs.len() - i,
    {
        let k = idxs[i];
        assert(k < s.len());
        assert(lives(s@)[k as int] == s@[k as int]@);
        assert(track_ok(lives(s@)[k as int], f, n));
        proof {
            lemma_select_push(at, fl, i as int);
            assert(at[i as int] == lives(s@)[k as int]);
        }
        if s[k].is_lost() {
            let mut t = s[k].duplicate();
            t.mark_lost();
            let ghost old_r = lives(r@);
            let ghost old_rv = r@;
            let ghost tl = t@;
            r.push(t);
            proof {
                assert(lives(r@) =~= old_r.push(tl));
                lemma_push_ok(old_r, tl, f, n);
                assert(tl == as_lost(at[i as int]));
                assert(lives(r@) =~= select(at.take(i + 1), fl).map_values(|l: TrackLife| as_lost(l)));
                assert forall|q: int| 0 <= q < r.len() implies exists|j: int|
                    0 <= j < s.len() && (#[trigger] r@[q])@ == as_lost(s@[j]@) && cloned(s@[j].data, r@[q].data) by {
                    if q < old_rv.len() {
                        assert(r@[q] == old_rv[q]);
                    } else {
                        assert(r@[q]@ == as_lost(s@[k as int]@) && cloned(s@[k as int].data, r@[q].data));
                    }
                }
            }
        } else {
            proof {
                assert(!fl[i as int]);
            }
        }
        i = i + 1;
    }
    assert(at.take(idxs.len() as int) =~= at);
    r
}

/// Copies of the fresh tracks of `s` at the indices `idxs`.
fn fresh_at<P: Clone>(
    s: &[STrack<P>],
    idxs: &Vec<usize>,
    Ghost(m): Ghost<int>,
    Ghost(flags): Ghost<Seq<bool>>,
) -> (r: Vec<STrack<P>>)
    requires
        indices_below(idxs@, s.len() as int),
        fresh_ok(lives(s@), m),
        flagged_fresh(lives(s@), flags),
    ensures
        fresh_ok(lives(r@), m),
        flagged_fresh(lives(r@), flags),
        r.len() == idxs.len(),
        forall|k: int| 0 <= k < r.len() ==> #[trigger] lives(r@)[k] == lives(s@)[idxs@[k] as int],
{
    let mut r: Vec<STrack<P>> = Vec::new();
    let mut i: usize = 0;
    while i < idxs.len()
        invariant
            i <= idxs.len(),
            r.len() == i,
            indices_below(idxs@, s.len() as int),
            fresh_ok(lives(s@), m),
            fresh_ok(lives(r@), m),
            flagged_fresh(lives(s@), flags),
            flagged_fresh(lives(r@), flags),
            forall|q: int| 0 <= q < r.len() ==> #[trigger] lives(r@)[q] == lives(s@)[idxs@[q] as int],
        decreases idxs.len() - i,
    {
        let k = idxs[i];
        assert(k < s.len());
        let ghost old_r = lives(r@);
        r.push(s[k].duplicate());
        proof {
            assert(lives(s@)[k as int] == s@[k as int]@);
            let l = lives(r@);
            assert(l =~= old_r.push(s@[k as int]@));
            assert forall|j: int| 0 <= j < l.len() implies ((#[trigger] l[j]) matches TrackLife::Inactive { det_idx: Some(q) } && q < m) by {
                if j < old_r.len() {
                    assert(l[j] == old_r[j]);
                }
            }
            assert forall|j: int| 0 <= j < l.len() implies ((#[trigger] l[j]) matches TrackLife::Inactive { det_idx: Some(q) }
                && q < flags.len() && flags[q as int]) by {
                if j < old_r.len() {
                    assert(l[j] == old_r[j]);
                }
            }
            assert forall|q: int| 0 <= q < l.len() implies #[trigger] l[q] == lives(s@)[idxs@[q] as int] by {
                if q < old_r.len() {
                    assert(l[q] == old_r[q]);
                }
            }
        }
        i = i + 1;
    }
    r
}

/// The flags of the lost tracks not updated for more than `max_time_lost`
/// frames before frame `now`.
pub open spec fn expiry_flags(lost: Seq<TrackLife>, now: int, max_time_lost: int) -> Seq<bool> {
    Seq::new(lost.len(), |i: int| now - lost[i]->Active_0.frame_id > max_time_lost)
}

/// An active track marked removed.
pub open spec fn as_removed(l: TrackLife) -> TrackLife {
    TrackLife::Active(ActiveSTrack { state: TrackState::Removed, ..l->Active_0 })
}

/// The lost tracks that expire at frame `now`, in order, marked removed.
pub open spec fn expired(lost: Seq<TrackLife>, now: int, max_time_lost: int) -> Seq<TrackLife> {
    select(lost, expiry_flags(lost, now, max_time_lost)).map_values(|l: TrackLife| as_removed(l))
}

/// Copies, marked removed, of the lost tracks of `lost` not updated for
/// more than `max_time_lost` frames before frame `now`.
fn expire_lost<P: Clone>(lost: &[STrack<P>], now: usize, max_time_lost: usize, Ghost(n): Ghost<int>) -> (r: Vec<STrack<P>>)
    requires
        tracks_ok(lives(lost@), now as int, n),
    ensures
        tracks_ok(lives(r@), now as int, n),
        lives(r@) == expired(lives(lost@), now as int, max_time_lost as int),
{
    let ghost ll = lives(lost@);
    let ghost flags = expiry_flags(ll, now as int, max_time_lost as int);
    let mut r: Vec<STrack<P>> = Vec::new();
    let mut i: usize = 0;
    while i < lost.len()
        invariant
            i <= lost.len(),
            ll == lives(lost@),
            flags == expiry_flags(ll, now as int, max_time_lost as int),
            tracks_ok(lives(lost@), now as int, n),
            tracks_ok(lives(r@), now as int, n),
            lives(r@) == select(ll.take(i as int), flags).map_values(|l: TrackLife| as_removed(l)),
        decreases lost.len() - i,
    {
        assert(lives(lost@)[i as int] == lost@[i as int]@);
        assert(track_ok(lives(lost@)[i as int], now as int, n));
        proof {
            lemma_select_push(ll, flags, i as int);
        }
        if now - lost[i].frame_id() > max_time_lost {
            let mut t = lost[i].duplicate();
            t.mark_removed();
            let ghost old_r = lives(r@);
            let ghost tl = t@;
            r.push(t);
            proof {
                assert(lives(r@) =~= old_r.push(tl));
                lemma_push_ok(old_r, tl, now as int, n);
                assert(tl == as_removed(ll[i as int]));
                assert(lives(r@) =~= select(ll.take(i + 1), flags).map_values(|l: TrackLife| as_removed(l)));
            }
        } else {
            proof {
                assert(!flags[i as int]);
            }
        }
        i = i + 1;
    }
    assert(ll.take(lost.len() as int) =~= ll);
    r
}

/// One flag per track: whether it has been activated.
fn activation_flags<P>(s: &[STrack<P>], want: bool) -> (r: Vec<bool>)
    ensures
        r.len() == s.len(),
        forall|i: int| 0 <= i < s.len() ==> r@[i] == (s@[i]@.is_active() == want),
{
    let mut r: Vec<bool> = Vec::new();
    let mut i: usize = 0;
    while i < s.len()
        invariant
            i <= s.len(),
            r.len() == i,
            forall|k: int| 0 <= k < i ==> r@[k] == (s@[k]@.is_active() == want),
        decreases s.len() - i,
    {
        r.push(s[i].is_activated() == want);
        i = i + 1;
    }
    r
}

/// One flag per track: whether it is being followed.
fn following_flags<P>(s: &[STrack<P>]) -> (r: Vec<bool>)
    ensures
        r.len() == s.len(),
        forall|i: int| 0 <= i < s.len() ==> r@[i] == s@[i]@.is_tracked(),
{
    let mut r: Vec<bool> = Vec::new();
    let mut i: usize = 0;
    while i < s.len()
        invariant
            i <= s.len(),
            r.len() == i,
            forall|k: int| 0 <= k < i ==> r@[k] == s@[k]@.is_tracked(),
        decreases s.len() - i,
    {
        r.push(s[i].is_tracked());
        i = i + 1;
    }
    r
}

/// The overlap answer when it fits `rows` by `cols`; otherwise one that
/// flags no pair.
fn fitted_overlaps(close: Vec<Vec<bool>>, rows: usize, cols: usize) -> (r: Vec<Vec<bool>>)
    ensures
        matrix_fits(rows_view(r@), rows as int, cols as int),
{
    let mut fits = close.len() == rows;
    let mut i: usize = 0;
    while i < close.len()
        invariant
            i <= close.len(),
            fits ==> close.len() == rows && forall|k: int| 0 <= k < i ==> (#[trigger] close@[k]).len() == cols,
        decreases close.len() - i,
    {
        if close[i].len() != cols {
            fits = false;
        }
        i = i + 1;
    }
    if fits {
        proof {
            assert forall|p: int| 0 <= p < rows implies (#[trigger] rows_view(close@)[p]).len() == cols by {
                assert(rows_view(close@)[p] == close@[p]@);
            }
        }
        close
    } else {
        let mut r: Vec<Vec<bool>> = Vec::new();
        let mut p: usize = 0;
        while p < rows
            invariant
                p <= rows,
                r.len() == p,
                forall|k: int| 0 <= k < p ==> (#[trigger] r@[k]).len() == cols,
            decreases rows - p,
        {
            let mut row: Vec<bool> = Vec::new();
            let mut q: usize = 0;
            while q < cols
                invariant
                    q <= cols,
                    row.len() == q,
                decreases cols - q,
            {
                row.push(false);
                q = q + 1;
            }
            r.push(row);
            p = p + 1;
        }
        proof {
            assert forall|k: int| 0 <= k < rows implies (#[trigger] rows_view(r@)[k]).len() == cols by {
                assert(rows_view(r@)[k] == r@[k]@);
            }
        }
        r
    }
}

/// Whether `data` is a copy of a payload that `predict` gives for the
/// followed track's payload `old`.
pub open spec fn predicted_copy<P: Clone, Pr: Fn(&P, bool) -> P>(predict: Pr, old: P, data: P) -> bool {
    exists|d: P| #[trigger] predict.ensures((&old, true), d) && copied(d, data)
}

/// Whether `data` is a copy of a payload that `start` gives for `det`.
pub open spec fn started_copy<P: Clone, St: Fn(&P) -> P>(start: St, det: P, data: P) -> bool {
    exists|d: P| #[trigger] start.ensures((&det,), d) && copied(d, data)
}

/// What a frame keeps of a tracker: `after` is sound, numbers the next
/// frame, has not gone back on identities, keeps the tracks followed before
/// in place, and each track it adds was started and last updated in the
/// frame of the call, under an identity not handed out before it.
pub open spec fn tracker_step<P>(before: ByteTrack<P>, after: ByteTrack<P>) -> bool {
    &&& after.wf()
    &&& after.frame_next() == before.frame_next() + 1
    &&& before.id_next() <= after.id_next()
    &&& before.followed().len() <= after.followed().len()
    &&& after.followed().subrange(0, before.followed().len() as int) == before.followed()
    &&& forall|k: int|
        before.followed().len() <= k < after.followed().len() ==> {
            &&& (#[trigger] after.followed()[k])->Active_0.start_frame == before.frame_next()
            &&& after.followed()[k]->Active_0.frame_id == before.frame_next()
            &&& after.followed()[k].track_id() >= before.id_next()
        }
}

/// Whether `run` starts with a fresh tracker and each tracker of it is
/// the one before after a frame.
pub open spec fn tracker_run<P>(run: Seq<ByteTrack<P>>) -> bool {
    &&& run.len() >= 1
    &&& run[0].wf()
    &&& run[0].frame_next() == 1
    &&& run[0].id_next() == 0
    &&& run[0].followed() == Seq::<TrackLife>::empty()
    &&& forall|i: int| 0 <= i < run.len() - 1 ==> tracker_step(#[trigger] run[i], run[i + 1])
}

proof fn lemma_run_frames<P>(run: Seq<ByteTrack<P>>, i: int)
    requires
        tracker_run(run),
        0 <= i < run.len(),
    ensures
        run[i].frame_next() == i + 1,
        run[i].wf(),
        forall|k: int| 0 <= k < run[i].followed().len() ==> (#[trigger] run[i].followed()[k])->Active_0.start_frame >= 1,
    decreases i,
{
    if i > 0 {
        lemma_run_frames(run, i - 1);
        assert(tracker_step(run[i - 1], run[i]));
        let before = run[i - 1].followed();
        let after = run[i].followed();
        assert forall|k: int| 0 <= k < after.len() implies (#[trigger] after[k])->Active_0.start_frame >= 1 by {
            if k < before.len() {
                assert(after[k] == after.subrange(0, before.len() as int)[k]);
            }
        }
    }
}

proof fn lemma_run_ids<P>(run: Seq<ByteTrack<P>>, i: int, j: int)
    requires
        tracker_run(run),
        0 <= i <= j < run.len(),
    ensures
        run[i].id_next() <= run[j].id_next(),
    decreases j - i,
{
    if i < j {
        lemma_run_ids(run, i, j - 1);
        assert(tracker_step(run[j - 1], run[j]));
    }
}

/// Over a run of frames from a fresh tracker (`run[i]` is the tracker after
/// `i` frames): the frames are numbered from 1; the tracks followed are
/// active, with distinct identities, each started in a frame no later than
/// the one it was last updated in, which is a frame already seen; a track
/// started in frame `j` was last updated in it; and its identity is above
/// every identity followed after any earlier frame: identities are never
/// used again.
pub proof fn lemma_tracker_run<P>(run: Seq<ByteTrack<P>>)
    requires
        tracker_run(run),
    ensures
        forall|i: int| 0 <= i < run.len() ==> (#[trigger] run[i]).frame_next() == i + 1,
        forall|i: int| 0 <= i < run.len() ==> distinct_ids(#[trigger] run[i].followed()) && all_active(run[i].followed()),
        forall|i: int, k: int|
            0 <= i < run.len() && 0 <= k < run[i].followed().len() ==> 1 <= (#[trigger] run[i].followed()[k])->Active_0.start_frame
                <= run[i].followed()[k]->Active_0.frame_id <= i,
        forall|j: int, q: int|
            0 <= j < run.len() && 0 <= q < run[j].followed().len() && (#[trigger] run[j].followed()[q])->Active_0.start_frame
                == j ==> run[j].followed()[q]->Active_0.frame_id == j,
        forall|i: int, j: int, k: int, q: int|
            0 <= i < j < run.len() && 0 <= k < run[i].followed().len() && 0 <= q < run[j].followed().len()
                && (#[trigger] run[j].followed()[q])->Active_0.start_frame == j ==> run[j].followed()[q].track_id()
                > (#[trigger] run[i].followed()[k]).track_id(),
{
    assert forall|i: int| 0 <= i < run.len() implies (#[trigger] run[i]).frame_next() == i + 1 by {
        lemma_run_frames(run, i);
    }
    assert forall|i: int| 0 <= i < run.len() implies distinct_ids(#[trigger] run[i].followed()) && all_active(
        run[i].followed(),
    ) by {
        lemma_run_frames(run, i);
        assert forall|k: int| 0 <= k < run[i].followed().len() implies (#[trigger] run[i].followed()[k]).is_active() by {
            assert(track_ok(run[i].followed()[k], run[i].frame_next(), run[i].id_next()));
        }
    }
    assert forall|i: int, k: int| 0 <= i < run.len() && 0 <= k < run[i].followed().len() implies 1 <= (
    #[trigger] run[i].followed()[k])->Active_0.start_frame <= run[i].followed()[k]->Active_0.frame_id <= i by {
        lemma_run_frames(run, i);
        assert(track_ok(run[i].followed()[k], run[i].frame_next(), run[i].id_next()));
    }
    assert forall|j: int, q: int|
        0 <= j < run.len() && 0 <= q < run[j].followed().len() && (#[trigger] run[j].followed()[q])->Active_0.start_frame
            == j implies run[j].followed()[q]->Active_0.frame_id == j by {
        lemma_run_frames(run, j);
        assert(track_ok(run[j].followed()[q], run[j].frame_next(), run[j].id_next()));
    }
    assert forall|i: int, j: int, k: int, q: int|
        0 <= i < j < run.len() && 0 <= k < run[i].followed().len() && 0 <= q < run[j].followed().len()
            && (#[trigger] run[j].followed()[q])->Active_0.start_frame == j implies run[j].followed()[q].track_id()
            > (#[trigger] run[i].followed()[k]).track_id() by {
        lemma_run_frames(run, i);
        lemma_run_frames(run, j - 1);
        lemma_run_frames(run, j);
        lemma_run_ids(run, i, j - 1);
        assert(tracker_step(run[j - 1], run[j]));
        assert(track_ok(run[i].followed()[k], run[i].frame_next(), run[i].id_next()));
        let before = run[j - 1].followed();
        if q < before.len() {
            assert(run[j].followed()[q] == run[j].followed().subrange(0, before.len() as int)[q]);
            assert(track_ok(before[q], run[j - 1].frame_next(), run[j - 1].id_next()));
        }
    }
}

/// How the payloads of the followed tracks come through a frame: the list
/// kept over the frame (`retained`) copies the followed tracks, the joined
/// lists copy it and the started tracks (`act` from `a_mid` on), and the
/// stored list copies the joined one.
proof fn lemma_update_payloads<P: Clone, St: Fn(&P) -> P>(
    tracked0: Seq<STrack<P>>,
    retained: Seq<STrack<P>>,
    tracked1: Seq<STrack<P>>,
    tracked2: Seq<STrack<P>>,
    ts: Seq<STrack<P>>,
    act: Seq<STrack<P>>,
    a_mid: int,
    followed0: Seq<TrackLife>,
    detections: Seq<P>,
    start: St,
    n0: int,
    f0: int,
    high: Seq<bool>,
    confident: Seq<bool>,
)
    requires
        lives(tracked0) == followed0,
        distinct_ids(followed0),
        tracks_ok(followed0, f0, n0),
        copies_of(retained, tracked0),
        lives(retained) == followed0,
        tracked1.len() >= retained.len(),
        forall|i: int| 0 <= i < retained.len() ==> cloned(retained[i].data, #[trigger] tracked1[i].data),
        copies_of(tracked1.skip(retained.len() as int), act),
        lives(tracked2) == lives(tracked1),
        forall|i: int| 0 <= i < tracked1.len() ==> cloned(tracked1[i].data, #[trigger] tracked2[i].data),
        copies_of(ts, tracked2),
        lives(ts) == lives(tracked2),
        distinct_ids(lives(tracked2)),
        forall|k: int|
            followed0.len() <= k < ts.len() ==> born_track(
                #[trigger] lives(ts)[k],
                n0 + (k - followed0.len()),
                f0,
                high,
                confident,
            ),
        0 <= a_mid <= act.len(),
        forall|q: int| 0 <= q < a_mid ==> has_id(followed0, (#[trigger] lives(act)[q]).track_id()),
        forall|q: int|
            a_mid <= q < act.len() ==> start.ensures((&detections[det_index(act[q]@)],), #[trigger] act[q].data),
    ensures
        ts.len() >= followed0.len(),
        forall|k: int| 0 <= k < followed0.len() ==> copied(tracked0[k].data, #[trigger] ts[k].data),
        forall|k: int|
            followed0.len() <= k < ts.len() ==> started_copy(start, detections[det_index(lives(ts)[k])], #[trigger] ts[k].data),
{
    let len0 = followed0.len();
    assert(lives(tracked1).len() == tracked1.len() && lives(tracked2).len() == tracked2.len());
    assert(lives(ts).len() == ts.len() && lives(retained).len() == retained.len());
    assert(lives(tracked0).len() == tracked0.len());
    lemma_copies_in_place(retained, tracked0);
    lemma_copies_in_place(ts, tracked2);
    assert forall|k: int| 0 <= k < len0 implies copied(tracked0[k].data, #[trigger] ts[k].data) by {
        let d0 = tracked0[k].data;
        lemma_copied_refl(d0);
        lemma_copied_clone(d0, d0, retained[k].data);
        lemma_copied_clone(d0, retained[k].data, tracked1[k].data);
        lemma_copied_clone(d0, tracked1[k].data, tracked2[k].data);
        lemma_copied_clone(d0, tracked2[k].data, ts[k].data);
    }
    assert forall|k: int|
        len0 <= k < ts.len() implies started_copy(start, detections[det_index(lives(ts)[k])], #[trigger] ts[k].data) by {
        let q = k - len0;
        assert(tracked1.skip(len0 as int)[q] == tracked1[k]);
        let j = choose|j: int|
            0 <= j < act.len() && (#[trigger] tracked1.skip(len0 as int)[q])@ == act[j]@ && cloned(
                act[j].data,
                tracked1.skip(len0 as int)[q].data,
            );
        let la = lives(act);
        assert(la[j] == act[j]@);
        assert(lives(tracked1)[k] == tracked1[k]@);
        assert(lives(ts)[k] == lives(tracked1)[k]);
        assert(born_track(lives(ts)[k], n0 + (k - len0), f0, high, confident));
        if j < a_mid {
            assert(has_id(followed0, la[j].track_id()));
            let p = choose|p: int| 0 <= p < followed0.len() && (#[trigger] followed0[p]).track_id() == la[j].track_id();
            assert(track_ok(followed0[p], f0, n0));
        }
        let d = act[j].data;
        assert(act[j]@ == lives(ts)[k]);
        assert(start.ensures((&detections[det_index(act[j]@)],), d));
        lemma_copied_refl(d);
        lemma_copied_clone(d, d, tracked1[k].data);
        lemma_copied_clone(d, tracked1[k].data, tracked2[k].data);
        lemma_copied_clone(d, tracked2[k].data, ts[k].data);
        assert(start.ensures((&detections[det_index(lives(ts)[k])],), d) && copied(d, ts[k].data));
    }
}

/// The tracks a frame adds after those followed before are those started
/// from the detections left over, in order.
proof fn lemma_born_tail(
    followed: Seq<TrackLife>,
    followed0: Seq<TrackLife>,
    act: Seq<TrackLife>,
    a_mid: int,
    dh: Seq<TrackLife>,
    hb: Seq<TrackLife>,
    left: Seq<usize>,
    confident: Seq<bool>,
    n0: int,
    f0: int,
)
    requires
        0 <= a_mid <= act.len(),
        followed == followed0 + act.subrange(a_mid, act.len() as int),
        act.skip(a_mid) == born_lives(dh, confident, n0, f0),
        dh.len() == left.len(),
        forall|k: int| 0 <= k < dh.len() ==> #[trigger] dh[k] == hb[left[k] as int],
    ensures
        followed.skip(followed0.len() as int) == born_lives(lives_at(hb, left), confident, n0, f0),
{
    assert(dh =~= lives_at(hb, left));
    assert(followed.skip(followed0.len() as int) =~= act.skip(a_mid));
}

impl<P: Clone> ByteTrack<P> {
    /// Advances the tracker by one frame and gives the tracks followed after
    /// it.
    ///
    /// The frame's detections come as payloads, flagged `high` (score above
    /// the tracking threshold), `low` (score above 0.1 and not above it) and
    /// `confident` (score high enough to start a new track). The caller
    /// answers the numerical questions:
    /// - `predict(data, followed)`: a track's payload after the motion
    ///   prediction for this frame;
    /// - `assign(tracks, detections, stage)`: the column the assignment gives
    ///   each track and whether its cost is within the stage's threshold;
    /// - `absorb(track, detection)`: a track's payload after it takes in a
    ///   detection;
    /// - `start(detection)`: the payload of a track started from a detection;
    /// - `overlaps(a, b)`: which pairs of tracks overlap so much that they
    ///   are taken for one object.
    ///
    /// An assignment or overlap answer of the wrong shape is read as
    /// matching nothing.
    ///
    /// A track followed before the frame stays followed as it was: a match
    /// updates a copy of it, and the stored track is kept over that copy.
    /// The tracks followed after the frame are therefore those followed
    /// before, unchanged, then one new track, with the next identity, for
    /// each confident detection flagged `high` that no followed track took
    /// in the first association, in the order of the detections. The tracks
    /// handed to that association carry what `predict` makes of the stored
    /// payloads, and the detections copies of theirs. The tracks
    /// kept carry copies of their payloads, and a new track carries a copy of
    /// what `start` makes of its detection. No track is ever lost or
    /// removed.
    #[verifier::spinoff_prover]
    #[verifier::rlimit(80)]
    pub fn update<Pr, As, Ab, St, Ov>(
        &mut self,
        detections: &[P],
        high: &Vec<bool>,
        low: &Vec<bool>,
        confident: &Vec<bool>,
        predict: &Pr,
        assign: &As,
        absorb: &Ab,
        start: &St,
        overlaps: &Ov,
    ) -> (r: Vec<STrack<P>>) where
        Pr: Fn(&P, bool) -> P,
        As: Fn(&[STrack<P>], &[STrack<P>], Stage) -> (Vec<usize>, Vec<bool>),
        Ab: Fn(&P, &P) -> P,
        St: Fn(&P) -> P,
        Ov: Fn(&[STrack<P>], &[STrack<P>]) -> Vec<Vec<bool>>,

        requires
            old(self).wf(),
            high.len() == detections.len(),
            low.len() == detections.len(),
            confident.len() == detections.len(),
            old(self).frame_next() < usize::MAX,
            old(self).id_next() + startable_count(high@, confident@) <= usize::MAX,
            forall|a: &P, b: bool| predict.requires((a, b)),
            forall|a: &[STrack<P>], b: &[STrack<P>], st: Stage| assign.requires((a, b, st)),
            forall|a: &P, b: &P| absorb.requires((a, b)),
            forall|a: &P| start.requires((a,)),
            forall|a: &[STrack<P>], b: &[STrack<P>]| overlaps.requires((a, b)),
        ensures
            final(self).wf(),
            final(self).frame_next() == old(self).frame_next() + 1,
            old(self).id_next() <= final(self).id_next() <= old(self).id_next() + detections.len(),
            final(self).max_time_lost() == old(self).max_time_lost(),
            lives(r@) == final(self).followed(),
            final(self).followed().len() == old(self).followed().len() + (final(self).id_next() - old(self).id_next()),
            final(self).followed().subrange(0, old(self).followed().len() as int) == old(self).followed(),
            forall|k: int|
                old(self).followed().len() <= k < final(self).followed().len() ==> born_track(
                    #[trigger] final(self).followed()[k],
                    old(self).id_next() + (k - old(self).followed().len()),
                    old(self).frame_next(),
                    high@,
                    confident@,
                ),
            forall|a: int, b: int|
                old(self).followed().len() <= a < b < final(self).followed().len() ==> det_index(
                    #[trigger] final(self).followed()[a],
                ) < det_index(#[trigger] final(self).followed()[b]),
            final(self).lost() == old(self).lost(),
            final(self).removed() == old(self).removed(),
            new_ids_fresh(final(self).followed(), old(self).id_next(), old(self).frame_next()),
            distinct_ids(final(self).followed()),
            (exists|a: &[STrack<P>], b: &[STrack<P>], ans: (Vec<usize>, Vec<bool>)|
                #[trigger] assign.ensures((a, b, Stage::HighScore), ans) && lives(a@) == unindexed(old(self).followed())
                    && (forall|k: int|
                    0 <= k < a.len() ==> predicted_copy(predict, old(self).followed_data()[k], #[trigger] a@[k].data))
                    && lives(b@) == fresh_lives(high@) && (forall|k: int|
                    0 <= k < b.len() ==> cloned(detections@[det_index(b@[k]@)], #[trigger] b@[k].data))
                    && final(self).followed().skip(old(self).followed().len() as int) == born_lives(
                    lives_at(lives(b@), left_over(a.len(), b.len(), ans)),
                    confident@,
                    old(self).id_next(),
                    old(self).frame_next(),
                )),
            old(self).followed().len() == 0 ==> final(self).followed() == born_lives(
                fresh_lives(high@),
                confident@,
                old(self).id_next(),
                old(self).frame_next(),
            ),
            final(self).followed_data().len() == final(self).followed().len(),
            forall|k: int|
                0 <= k < old(self).followed().len() ==> copied(
                    old(self).followed_data()[k],
                    #[trigger] final(self).followed_data()[k],
                ),
            forall|k: int|
                old(self).followed().len() <= k < final(self).followed().len() ==> started_copy(
                    start,
                    detections@[det_index(final(self).followed()[k])],
                    #[trigger] final(self).followed_data()[k],
                ),
            forall|k: int| 0 <= k < r.len() ==> cloned(final(self).followed_data()[k], #[trigger] r@[k].data),
            tracker_step(*old(self), *final(self)),
    {
        let ghost tracked0 = self.tracked_stracks@;
        let ghost data0 = self.followed_data();
        let ghost f0 = self.frame_next();
        let ghost n0 = self.id_next();
        let ghost removed0 = self.removed();
        let ghost followed0 = self.followed();
        let ghost lost0 = self.lost();
        let ghost max0 = self.max_time_lost;
        let frame_id = self.frame_id.increment();
        assert(frame_id == f0);
        let mut activated_stracks: Vec<STrack<P>> = Vec::new();
        let mut refind_stracks: Vec<STrack<P>> = Vec::new();
        let mut removed_stracks: Vec<STrack<P>> = Vec::new();
        assert(lives(activated_stracks@) =~= Seq::<TrackLife>::empty());
        assert(lives(refind_stracks@) =~= Seq::<TrackLife>::empty());
        assert(lives(removed_stracks@) =~= Seq::<TrackLife>::empty());

        // Split the detections into confident and less confident ones.
        let (high_t, low_t) = split_detections(detections, high, low);

        // Tracks not yet activated are unconfirmed; the others are followed.
        let not_active = activation_flags(self.tracked_stracks.as_slice(), false);
        let is_active = activation_flags(self.tracked_stracks.as_slice(), true);
        let mut unconfirmed = filter_tracks(self.tracked_stracks.as_slice(), &not_active);
        let followed = filter_tracks(self.tracked_stracks.as_slice(), &is_active);
        proof {
            let lt = lives(self.tracked_stracks@);
            assert forall|i: int| 0 <= i < lt.len() implies !not_active@[i] by {
                assert(lt[i] == self.tracked_stracks@[i]@);
                assert(track_ok(lt[i], f0, n0));
            }
            lemma_select_none(lt, not_active@);
            assert forall|i: int| 0 <= i < lt.len() implies is_active@[i] by {
                assert(lt[i] == self.tracked_stracks@[i]@);
                assert(track_ok(lt[i], f0, n0));
            }
            lemma_select_all(lt, is_active@);
        }
        assert(unconfirmed.len() == 0);
        let mut i: usize = 0;
        while i < unconfirmed.len()
            invariant
                unconfirmed.len() == 0,
            decreases unconfirmed.len() - i,
        {
            let mut t = unconfirmed[i].duplicate();
            t.set_det_idx(None);
            unconfirmed.set(i, t);
            i = i + 1;
        }

        // First association, with the confident detections.
        let mut strack_pool = joint_stracks(followed.as_slice(), self.lost_stracks.as_slice());
        proof {
            lemma_joint_ok(lives(followed@), self.lost(), f0, n0);
            assert(lives(strack_pool@) == followed0);
            assert(lives(tracked0).len() == tracked0.len());
        }
        let mut i: usize = 0;
        while i < strack_pool.len()
            invariant
                i <= strack_pool.len(),
                tracks_ok(lives(strack_pool@), f0, n0),
                all_tracked(lives(strack_pool@)),
                strack_pool.len() == followed0.len(),
                forall|k: int| 0 <= k < followed0.len() ==> (#[trigger] lives(strack_pool@)[k]).track_id() == followed0[k].track_id(),
                forall|k: int| 0 <= k < i ==> #[trigger] lives(strack_pool@)[k] == followed0[k].with_det_idx(None),
                forall|k: int| i <= k < followed0.len() ==> #[trigger] lives(strack_pool@)[k] == followed0[k],
                forall|a: &P, b: bool| predict.requires((a, b)),
                self.tracked_stracks@ == tracked0,
                tracked0.len() == followed0.len(),
                forall|k: int| 0 <= k < i ==> predict.ensures((&tracked0[k].data, true), #[trigger] strack_pool@[k].data),
            decreases strack_pool.len() - i,
        {
            assert(lives(strack_pool@)[i as int] == strack_pool@[i as int]@);
            let mut t = strack_pool[i].duplicate();
            t.set_det_idx(None);
            let following = t.is_tracked();
            assert(following);
            t.data = predict(&self.tracked_stracks[i].data, following);
            let ghost old_pool = lives(strack_pool@);
            let ghost old_pv = strack_pool@;
            let ghost tl = t@;
            strack_pool.set(i, t);
            proof {
                assert forall|k: int| 0 <= k < i + 1 implies predict.ensures((&tracked0[k].data, true), #[trigger] strack_pool@[k].data) by {
                    if k != i {
                        assert(strack_pool@[k] == old_pv[k]);
                    }
                }
                assert(lives(strack_pool@) =~= old_pool.update(i as int, tl));
                assert forall|k: int| 0 <= k < lives(strack_pool@).len() implies track_ok(#[trigger] lives(strack_pool@)[k], f0, n0) by {
                    if k != i {
                        assert(lives(strack_pool@)[k] == old_pool[k]);
                    }
                }
                assert(old_pool[i as int].is_tracked());
                assert forall|k: int| 0 <= k < lives(strack_pool@).len() implies (#[trigger] lives(strack_pool@)[k]).is_tracked() by {
                    if k != i {
                        assert(lives(strack_pool@)[k] == old_pool[k]);
                    }
                }
                assert forall|k: int| 0 <= k < followed0.len() implies (#[trigger] lives(strack_pool@)[k]).track_id() == followed0[k].track_id() by {
                    if k != i {
                        assert(lives(strack_pool@)[k] == old_pool[k]);
                    }
                }
                assert forall|k: int| 0 <= k < i + 1 implies #[trigger] lives(strack_pool@)[k] == followed0[k].with_det_idx(None) by {
                    if k != i {
                        assert(lives(strack_pool@)[k] == old_pool[k]);
                    }
                }
                assert forall|k: int| i + 1 <= k < followed0.len() implies #[trigger] lives(strack_pool@)[k] == followed0[k] by {
                    assert(lives(strack_pool@)[k] == old_pool[k]);
                }
            }
            i = i + 1;
        }
        assert(lives(strack_pool@) =~= unindexed(followed0));
        let pool_s = strack_pool.as_slice();
        let high_s = high_t.as_slice();
        let ghost act0 = activated_stracks@;
        let ghost ref0 = refind_stracks@;
        let (unmatched_stracks, unmatched_high) = association(
            pool_s,
            high_s,
            Stage::HighScore,
            frame_id,
            &mut activated_stracks,
            &mut refind_stracks,
            assign,
            absorb,
            Ghost(n0),
        );

        let ghost a_first = activated_stracks@;
        let ghost ans1 = choose|ans: (Vec<usize>, Vec<bool>)|
            #[trigger] assign.ensures((pool_s, high_s, Stage::HighScore), ans) && association_outcome(
                lives(pool_s@),
                lives(high_s@),
                frame_id,
                fitted(ans, pool_s.len(), high_s.len()),
            ) == (
                unmatched_stracks@,
                unmatched_high@,
                lives(activated_stracks@).skip(act0.len() as int),
                lives(refind_stracks@).skip(ref0.len() as int),
            );
        proof {
            assert(assign.ensures((pool_s, high_s, Stage::HighScore), ans1));
            assert(lives(pool_s@).len() == pool_s.len() && lives(high_s@).len() == high_s.len());
            assert(unmatched_high@ == left_over(pool_s.len(), high_s.len(), ans1));
        }

        // Second association, with the less confident detections.
        let remaining_tracked_stracks = followed_at(strack_pool.as_slice(), &unmatched_stracks, Ghost(f0), Ghost(n0));
        let (unmatched_remaining, _unmatched_low) = association(
            remaining_tracked_stracks.as_slice(),
            low_t.as_slice(),
            Stage::LowScore,
            frame_id,
            &mut activated_stracks,
            &mut refind_stracks,
            assign,
            absorb,
            Ghost(n0),
        );
        let mut lost_stracks = newly_lost(remaining_tracked_stracks.as_slice(), &unmatched_remaining, Ghost(f0), Ghost(n0));
        assert(lost_stracks.len() == 0);
        proof {
            let la = lives(activated_stracks@);
            let pool = lives(strack_pool@);
            let rem = lives(remaining_tracked_stracks@);
            assert forall|q: int| 0 <= q < la.len() implies has_id(followed0, (#[trigger] la[q]).track_id()) by {
                let id = la[q].track_id();
                if q < a_first.len() {
                    assert(la[q] == lives(a_first)[q]);
                    assert(has_id(pool, id));
                } else {
                    assert(has_id(rem, id));
                    let j = choose|j: int| 0 <= j < rem.len() && (#[trigger] rem[j]).track_id() == id;
                    assert(has_id(pool, rem[j].track_id()));
                }
                let p = choose|p: int| 0 <= p < pool.len() && (#[trigger] pool[p]).track_id() == id;
                assert(followed0[p].track_id() == id);
            }
        }

        // Unconfirmed tracks, against the confident detections left over.
        let detections_high = fresh_at(high_t.as_slice(), &unmatched_high, Ghost(detections.len() as int), Ghost(high@));
        let nrows = unconfirmed.len();
        let ncols = detections_high.len();
        let answer = assign(unconfirmed.as_slice(), detections_high.as_slice(), Stage::Unconfirmed);
        let (x, accept) = fitted_answer(answer, nrows, ncols);
        let (matches, unmatched_unconfirmed, unmatched_remaining_high) = split_assignment(nrows, ncols, &x, &accept);
        proof {
            assert(Seq::new(nrows as nat, |r: int| (r as usize, x@[r])) =~= Seq::<(usize, usize)>::empty());
            assert(Seq::new(nrows as nat, |r: int| r as usize) =~= Seq::<usize>::empty());
            lemma_select_from(Seq::new(ncols as nat, |c: int| c as usize),
                Seq::new(ncols as nat, |c: int| !col_matched(nrows, ncols, x@, accept@, c)));
            let ur = unmatched_remaining_high@;
            assert forall|k: int| 0 <= k < ur.len() implies #[trigger] ur[k] < ncols by {
                assert(Seq::new(ncols as nat, |c: int| c as usize).contains(ur[k]));
            }
        }
        assert(matches.len() == 0);
        assert(unmatched_unconfirmed.len() == 0);
        let ghost a_snap = activated_stracks@;
        let ghost r_snap = removed_stracks@;
        let mut m: usize = 0;
        while m < matches.len()
            invariant
                matches.len() == 0,
                activated_stracks@ == a_snap,
            decreases matches.len() - m,
        {
            let (ti, di) = matches[m];
            let mut t = unconfirmed[ti].duplicate();
            t.update(frame_id);
            t.data = absorb(&t.data, &detections_high[di].data);
            unconfirmed.set(ti, t.duplicate());
            activated_stracks.push(t);
            m = m + 1;
        }
        let mut m: usize = 0;
        while m < unmatched_unconfirmed.len()
            invariant
                unmatched_unconfirmed.len() == 0,
                removed_stracks@ == r_snap,
            decreases unmatched_unconfirmed.len() - m,
        {
            let mut t = unconfirmed[unmatched_unconfirmed[m]].duplicate();
            t.mark_removed();
            removed_stracks.push(t);
            m = m + 1;
        }

        // Start new tracks from the confident detections still unmatched.
        proof {
            lemma_ok_mono(lives(activated_stracks@), f0 + 1, n0, f0 + 1, n0);
            assert(new_ids_fresh(lives(activated_stracks@), n0, f0));
        }
        let ghost a_mid = lives(activated_stracks@);
        proof {
            let dh = lives(detections_high@);
            let hl = lives(high_t@);
            let uh = unmatched_high@;
            assert forall|a: int, b: int| 0 <= a < b < dh.len() implies det_index(#[trigger] dh[a]) < det_index(#[trigger] dh[b]) by {
                assert(dh[a] == hl[uh[a] as int] && dh[b] == hl[uh[b] as int]);
                assert(uh[a] < uh[b]);
            }
        }
        let ghost dh = lives(detections_high@);
        let ghost cfl = confident_flags(dh, confident@);
        proof {
            assert(dh =~= lives_at(lives(high_s@), unmatched_high@));
            lemma_confident_count_sub(lives(high_s@), unmatched_high@, confident@);
            lemma_unmatched_cols_all(ncols, x@, accept@);
            assert(dh.take(0) =~= Seq::<TrackLife>::empty());
            assert(lives(activated_stracks@).skip(a_mid.len() as int) =~= Seq::<TrackLife>::empty());
            assert(start_lives(select(dh.take(0), cfl), n0, f0 as int) =~= Seq::<TrackLife>::empty());
        }
        let mut k: usize = 0;
        while k < unmatched_remaining_high.len()
            invariant
                dh == lives(detections_high@),
                cfl == confident_flags(dh, confident@),
                self.tracked_stracks@ == tracked0,
                ncols == detections_high.len(),
                unmatched_remaining_high@ == Seq::new(ncols as nat, |c: int| c as usize),
                lives(activated_stracks@).skip(a_mid.len() as int) == start_lives(select(dh.take(k as int), cfl), n0, f0 as int),
                self.next_id@ == n0 + select(dh.take(k as int), cfl).len(),
                a_mid.len() <= activated_stracks.len(),
                forall|q: int|
                    a_mid.len() <= q < activated_stracks.len() ==> start.ensures(
                        (&detections@[det_index(activated_stracks@[q]@)],),
                        #[trigger] activated_stracks@[q].data,
                    ),
                k <= unmatched_remaining_high.len(),
                unmatched_remaining_high.len() <= detections_high.len(),
                indices_below(unmatched_remaining_high@, detections_high.len() as int),
                fresh_ok(lives(detections_high@), detections.len() as int),
                confident.len() == detections.len(),
                frame_id == f0,
                n0 <= self.next_id@ <= n0 + k,
                n0 + confident_count(dh, confident@) <= usize::MAX,
                detections_high.len() <= detections.len(),
                tracks_ok(lives(activated_stracks@), f0 + 1, self.next_id@ as int),
                new_ids_fresh(lives(activated_stracks@), n0, f0),
                all_tracked(lives(activated_stracks@)),
                flagged_fresh(lives(detections_high@), high@),
                high.len() == detections.len(),
                dets_increasing(lives(detections_high@)),
                strictly_increasing(unmatched_remaining_high@),
                forall|a: int, b: int|
                    a_mid.len() <= a < b < lives(activated_stracks@).len() ==> det_index(
                        #[trigger] lives(activated_stracks@)[a],
                    ) < det_index(#[trigger] lives(activated_stracks@)[b]),
                forall|q: int, k2: int|
                    a_mid.len() <= q < lives(activated_stracks@).len() && k <= k2 < unmatched_remaining_high.len()
                        ==> det_index(#[trigger] lives(activated_stracks@)[q]) < det_index(
                        lives(detections_high@)[#[trigger] unmatched_remaining_high@[k2] as int],
                    ),
                lives(activated_stracks@).len() == a_mid.len() + (self.next_id@ - n0),
                lives(activated_stracks@).subrange(0, a_mid.len() as int) == a_mid,
                forall|q: int|
                    a_mid.len() <= q < lives(activated_stracks@).len() ==> born_track(
                        #[trigger] lives(activated_stracks@)[q],
                        n0 + (q - a_mid.len()),
                        f0,
                        high@,
                        confident@,
                    ),
                forall|a: &P| start.requires((a,)),
                self.followed() == followed0,
                self.lost() == lost0,
                self.removed() == removed0,
                self.frame_next() == f0 + 1,
                self.max_time_lost == max0,
                tracks_ok(followed0, f0, n0),
                tracks_ok(lost0, f0, n0),
                tracks_ok(removed0, f0, n0),
                distinct_ids(followed0),
            decreases unmatched_remaining_high.len() - k,
        {
            let di = unmatched_remaining_high[k];
            assert(di == k);
            assert(lives(detections_high@)[di as int] == detections_high@[di as int]@);
            proof {
                lemma_select_push(dh, cfl, k as int);
                assert(dh[k as int] matches TrackLife::Inactive { det_idx: Some(j) } && j < high@.len());
            }
            let mut track = detections_high[di].duplicate();
            if let Some(idx) = track.det_idx() {
                assert(idx < detections.len());
                assert(cfl[k as int] == confident@[idx as int]);
                if confident[idx] {
                    proof {
                        lemma_prefix_started(dh, confident@, k + 1);
                    }
                    let ghost before = self.next_id@;
                    let ghost sel = select(dh.take(k as int), cfl);
                    let ghost old_av = activated_stracks@;
                    track.activate(&mut self.next_id, frame_id);
                    track.data = start(&detections[idx]);
                    let ghost old_a = lives(activated_stracks@);
                    let ghost tl = track@;
                    activated_stracks.push(track);
                    proof {
                        assert(lives(activated_stracks@) =~= old_a.push(tl));
                        assert(lives(activated_stracks@).skip(a_mid.len() as int) =~= old_a.skip(a_mid.len() as int).push(tl));
                        assert(start_lives(sel.push(dh[k as int]), n0, f0 as int) =~= start_lives(sel, n0, f0 as int).push(tl));
                        assert forall|q: int| a_mid.len() <= q < activated_stracks.len() implies start.ensures(
                            (&detections@[det_index(activated_stracks@[q]@)],),
                            #[trigger] activated_stracks@[q].data,
                        ) by {
                            if q < old_av.len() {
                                assert(activated_stracks@[q] == old_av[q]);
                            }
                        }
                        lemma_ok_mono(old_a, f0 + 1, before as int, f0 + 1, self.next_id@ as int);
                        lemma_push_ok(old_a, tl, f0 + 1, self.next_id@ as int);
                        let la = lives(activated_stracks@);
                        assert forall|q: int| 0 <= q < la.len() implies (#[trigger] la[q]).is_tracked() by {
                            if q < old_a.len() {
                                assert(la[q] == old_a[q]);
                            }
                        }
                        assert(la.subrange(0, a_mid.len() as int) =~= old_a.subrange(0, a_mid.len() as int));
                        let dh = lives(detections_high@);
                        let urh = unmatched_remaining_high@;
                        assert(det_index(tl) == det_index(dh[di as int]));
                        assert forall|a: int, b: int| a_mid.len() <= a < b < la.len() implies det_index(#[trigger] la[a])
                            < det_index(#[trigger] la[b]) by {
                            assert(la[a] == old_a[a]);
                            if b < old_a.len() {
                                assert(la[b] == old_a[b]);
                            } else {
                                assert(la[b] == tl);
                                assert(det_index(old_a[a]) < det_index(dh[urh[k as int] as int]));
                            }
                        }
                        assert forall|q: int, k2: int| a_mid.len() <= q < la.len() && k + 1 <= k2 < urh.len() implies det_index(
                            #[trigger] la[q],
                        ) < det_index(dh[#[trigger] urh[k2] as int]) by {
                            assert(urh[k as int] < urh[k2]);
                            assert(det_index(dh[urh[k as int] as int]) < det_index(dh[urh[k2] as int]));
                            if q < old_a.len() {
                                assert(la[q] == old_a[q]);
                            } else {
                                assert(la[q] == tl);
                            }
                        }
                        assert forall|q: int| a_mid.len() <= q < la.len() implies born_track(
                            #[trigger] la[q],
                            n0 + (q - a_mid.len()),
                            f0,
                            high@,
                            confident@,
                        ) by {
                            if q < old_a.len() {
                                assert(la[q] == old_a[q]);
                            } else {
                                assert(la[q] == tl);
                            }
                        }
                        assert forall|q: int| 0 <= q < la.len() && (#[trigger] la[q]).track_id() >= n0 implies
                            la[q]->Active_0.start_frame == f0 && la[q]->Active_0.tracklet_len == 0 by {
                            if q < old_a.len() {
                                assert(la[q] == old_a[q]);
                            }
                        }
                    }
                }
            }
            k = k + 1;
        }
        proof {
            assert(dh.take(ncols as int) =~= dh);
        }
        let ghost n1 = self.next_id@ as int;
        proof {
            lemma_ok_mono(lives(refind_stracks@), f0 + 1, n0, f0 + 1, n1);
            lemma_ok_mono(lives(lost_stracks@), f0, n0, f0 + 1, n1);
            lemma_ok_mono(self.followed(), f0, n0, f0 + 1, n1);
            lemma_ok_mono(self.lost(), f0, n0, f0 + 1, n1);
            lemma_ok_mono(self.removed(), f0, n0, f0 + 1, n1);
        }

        // Lost tracks kept too long are removed.
        let mut expiring = expire_lost(self.lost_stracks.as_slice(), self.frame_id.current(), self.max_time_lost, Ghost(n1));
        let ghost rs0 = lives(removed_stracks@);
        let ghost ex = lives(expiring@);
        removed_stracks.append(&mut expiring);
        proof {
            assert(lives(removed_stracks@) =~= rs0 + ex);
            assert(lives(removed_stracks@) =~= ex);
        }

        // The tracks followed from now on.
        let keep = following_flags(self.tracked_stracks.as_slice());
        let retained = filter_tracks(self.tracked_stracks.as_slice(), &keep);
        proof {
            lemma_select_ok(self.followed(), keep@, f0 + 1, n1);
            lemma_select_distinct(self.followed(), keep@);
            lemma_select_ok(followed0, keep@, f0, n0);
            lemma_ok_fresh(lives(retained@), f0, n0, f0);
            lemma_ok_fresh(lives(refind_stracks@), f0 + 1, n0, f0);
            lemma_fresh_joint(lives(retained@), lives(activated_stracks@), n0, f0);
        }
        let tracked1 = joint_stracks(retained.as_slice(), activated_stracks.as_slice());
        proof {
            lemma_joint_ok(lives(retained@), lives(activated_stracks@), f0 + 1, n1);
            lemma_joint_distinct(lives(retained@), lives(activated_stracks@));
        }
        let tracked2 = joint_stracks(tracked1.as_slice(), refind_stracks.as_slice());
        proof {
            lemma_joint_ok(lives(tracked1@), lives(refind_stracks@), f0 + 1, n1);
            lemma_joint_distinct(lives(tracked1@), lives(refind_stracks@));
            lemma_fresh_joint(lives(tracked1@), lives(refind_stracks@), n0, f0);
        }

        // The tracks lost from now on.
        let mut lost1 = sub_stracks(self.lost_stracks.as_slice(), tracked2.as_slice());
        proof {
            lemma_select_ok(self.lost(), Seq::new(self.lost().len(), |i: int| !has_id(lives(tracked2@), self.lost()[i].track_id())), f0 + 1, n1);
        }
        let ghost l1 = lives(lost1@);
        let ghost ll = lives(lost_stracks@);
        lost1.append(&mut lost_stracks);
        proof {
            assert(lives(lost1@) =~= l1 + ll);
            assert(lives(lost1@) =~= sub_lives(lost0, lives(tracked2@)));
            assert forall|q: int| 0 <= q < lives(lost1@).len() implies track_ok(#[trigger] lives(lost1@)[q], f0 + 1, n1) by {
                if q < l1.len() {
                    assert(lives(lost1@)[q] == l1[q]);
                } else {
                    assert(lives(lost1@)[q] == ll[q - l1.len()]);
                }
            }
        }
        let lost2 = sub_stracks(lost1.as_slice(), self.removed_stracks.as_slice());
        proof {
            lemma_select_ok(lives(lost1@), Seq::new(lives(lost1@).len(), |i: int| !has_id(self.removed(), lives(lost1@)[i].track_id())), f0 + 1, n1);
        }

        // The tracks removed from now on.
        let ghost r1 = self.removed();
        let ghost r2 = lives(removed_stracks@);
        self.removed_stracks.append(&mut removed_stracks);
        proof {
            assert(self.removed() =~= r1 + r2);
            assert forall|q: int| 0 <= q < self.removed().len() implies track_ok(#[trigger] self.removed()[q], f0 + 1, n1) by {
                if q < r1.len() {
                    assert(self.removed()[q] == r1[q]);
                } else {
                    assert(self.removed()[q] == r2[q - r1.len()]);
                }
            }
            assert(self.removed() =~= removed0 + expired(lost0, f0 + 1, max0 as int));
        }

        // Of two tracks taken for one object, the younger one goes.
        let close = overlaps(tracked2.as_slice(), lost2.as_slice());
        let close = fitted_overlaps(close, tracked2.len(), lost2.len());
        proof {
            let a = lives(tracked2@);
            let b = lives(lost2@);
            assert forall|p: int, q: int| 0 <= p < a.len() && 0 <= q < b.len() && #[trigger] rows_view(close@)[p][q] implies
                a[p].is_active() && b[q].is_active() && a[p].age() >= 0 && b[q].age() >= 0 by {
                assert(track_ok(a[p], f0 + 1, n1));
                assert(track_ok(b[q], f0 + 1, n1));
            }
        }
        let (tracked3, lost3) = remove_duplicate_stracks(tracked2.as_slice(), lost2.as_slice(), &close);
        proof {
            let cm = rows_view(close@);
            lemma_select_ok(lives(tracked2@), keep_in_a(lives(tracked2@), lives(lost2@), cm), f0 + 1, n1);
            lemma_select_distinct(lives(tracked2@), keep_in_a(lives(tracked2@), lives(lost2@), cm));
            lemma_select_ok(lives(lost2@), keep_in_b(lives(tracked2@), lives(lost2@), cm), f0 + 1, n1);
            lemma_fresh_select(lives(tracked2@), keep_in_a(lives(tracked2@), lives(lost2@), cm), n0, f0);
        }
        self.tracked_stracks = tracked3;
        self.lost_stracks = lost3;
        proof {
            let cm = rows_view(close@);
            lemma_all_tracked_select(followed0, keep@);
            lemma_all_tracked_joint(lives(retained@), lives(activated_stracks@));
            assert(lives(tracked2@) == lives(tracked1@));
            lemma_all_tracked_select(lives(tracked2@), keep_in_a(lives(tracked2@), lives(lost2@), cm));
            assert(lives(lost2@) == sub_lives(sub_lives(lost0, lives(tracked2@)), removed0));
            lemma_lost_from_old(
                lost0,
                removed0,
                lives(tracked2@),
                keep_in_a(lives(tracked2@), lives(lost2@), cm),
                keep_in_b(lives(tracked2@), lives(lost2@), cm),
            );
            if self.lost().len() > 0 {
                assert(lost0.contains(self.lost()[0]));
            }
            // The followed tracks: those followed before, then the new ones.
            let fl = keep@;
            assert forall|q: int| 0 <= q < followed0.len() implies fl[q] by {
                assert(followed0[q].is_tracked());
            }
            lemma_select_all(followed0, fl);
            let act = lives(activated_stracks@);
            assert forall|q: int| 0 <= q < a_mid.len() implies has_id(followed0, (#[trigger] act[q]).track_id()) by {
                assert(act[q] == act.subrange(0, a_mid.len() as int)[q]);
            }
            assert forall|q: int| 0 <= q < followed0.len() implies (#[trigger] followed0[q]).track_id() < n0 by {
                assert(track_ok(followed0[q], f0, n0));
            }
            assert forall|q: int| a_mid.len() <= q < act.len() implies (#[trigger] act[q]).track_id() == n0 + (q - a_mid.len()) by {
                assert(born_track(act[q], n0 + (q - a_mid.len()), f0, high@, confident@));
            }
            lemma_joint_known_then_new(followed0, act, a_mid.len() as int, n0);
            assert(lives(lost2@).len() == 0);
            let b = lives(lost2@);
            let t2 = lives(tracked2@);
            assert forall|q: int| 0 <= q < t2.len() implies keep_in_a(t2, b, cm)[q] by {
                assert(!dup_in_a(t2, b, cm, q));
            }
            lemma_select_all(t2, keep_in_a(t2, b, cm));
            assert(self.followed() == followed0 + act.subrange(a_mid.len() as int, act.len() as int));
            assert(self.followed().subrange(0, followed0.len() as int) =~= followed0);
            assert forall|k: int| followed0.len() <= k < self.followed().len() implies born_track(
                #[trigger] self.followed()[k],
                n0 + (k - followed0.len()),
                f0,
                high@,
                confident@,
            ) by {
                assert(self.followed()[k] == act[a_mid.len() + (k - followed0.len())]);
            }
            assert(self.lost() =~= lost0);
            assert(expired(lost0, f0 + 1, max0 as int) =~= Seq::<TrackLife>::empty());
            assert forall|a: int, b: int| followed0.len() <= a < b < self.followed().len() implies det_index(
                #[trigger] self.followed()[a],
            ) < det_index(#[trigger] self.followed()[b]) by {
                assert(self.followed()[a] == act[a_mid.len() + (a - followed0.len())]);
                assert(self.followed()[b] == act[a_mid.len() + (b - followed0.len())]);
            }
        }

        let want = activation_flags(self.tracked_stracks.as_slice(), true);
        let r = filter_tracks(self.tracked_stracks.as_slice(), &want);
        proof {
            let lt = self.followed();
            assert forall|i: int| 0 <= i < lt.len() implies want@[i] by {
                assert(lt[i] == self.tracked_stracks@[i]@);
                assert(track_ok(lt[i], f0 + 1, n1));
            }
            lemma_select_all(lt, want@);
        }
        proof {
            let ts = self.tracked_stracks@;
            assert(lives(tracked1@).len() == tracked1.len() && lives(tracked2@).len() == tracked2.len());
            assert(lives(ts).len() == ts.len() && lives(retained@).len() == retained.len());
            lemma_copies_in_place(r@, ts);
            lemma_update_payloads(
                tracked0,
                retained@,
                tracked1@,
                tracked2@,
                ts,
                activated_stracks@,
                a_mid.len() as int,
                followed0,
                detections@,
                start,
                n0,
                f0,
                high@,
                confident@,
            );
            assert forall|k: int| 0 <= k < followed0.len() implies data0[k] == tracked0[k].data by {}
            assert forall|k: int| 0 <= k < ts.len() implies self.followed_data()[k] == ts[k].data by {}
            assert(self.followed_data().len() == self.followed().len());
            lemma_born_tail(
                self.followed(),
                followed0,
                lives(activated_stracks@),
                a_mid.len() as int,
                dh,
                lives(high_s@),
                unmatched_high@,
                confident@,
                n0,
                f0,
            );
            if followed0.len() == 0 {
                lemma_left_over_all(high_s.len(), ans1);
                assert(lives_at(lives(high_s@), unmatched_high@) =~= lives(high_s@));
                assert(self.followed().skip(0) =~= self.followed());
            }
            assert forall|k: int| followed0.len() <= k < self.followed().len() implies {
                &&& (#[trigger] self.followed()[k])->Active_0.start_frame == f0
                &&& self.followed()[k]->Active_0.frame_id == f0
                &&& self.followed()[k].track_id() >= n0
            } by {
                assert(born_track(self.followed()[k], n0 + (k - followed0.len()), f0, high@, confident@));
            }
            assert forall|k: int| 0 <= k < pool_s.len() implies predicted_copy(predict, data0[k], #[trigger] pool_s@[k].data) by {
                lemma_copied_refl(pool_s@[k].data);
                assert(data0[k] == tracked0[k].data);
                assert(predict.ensures((&tracked0[k].data, true), pool_s@[k].data));
            }
            assert(assign.ensures((pool_s, high_s, Stage::HighScore), ans1) && lives(pool_s@) == unindexed(followed0)
                && (forall|k: int| 0 <= k < pool_s.len() ==> predicted_copy(predict, data0[k], #[trigger] pool_s@[k].data))
                && lives(high_s@) == fresh_lives(high@) && (forall|k: int|
                0 <= k < high_s.len() ==> cloned(detections@[det_index(high_s@[k]@)], #[trigger] high_s@[k].data))
                && self.followed().skip(followed0.len() as int) == born_lives(
                lives_at(lives(high_s@), left_over(pool_s.len(), high_s.len(), ans1)),
                confident@,
                n0,
                f0,
            ));
        }
        r
    }
}

} // verus!
