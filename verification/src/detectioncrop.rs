//! Locking the crop of each frame onto one tracked detection: which track
//! is followed, when it may be replaced, and where its detection is.
use vstd::prelude::*;

verus! {

/// The state of a track lock: the track followed, if any, and for how many
/// frames in a row it has been missing.
#[derive(Debug, Clone, Copy, PartialEq, Eq, Structural)]
pub struct LockState {
    pub locked_id: Option<u64>,
    pub missing: u32,
}

/// The identity of the best detection, if there is one.
pub open spec fn best_track(ids: Seq<u64>, best: Option<usize>) -> Option<u64> {
    match best {
        Some(b) => Some(ids[b as int]),
        None => None,
    }
}

/// One frame of the lock: the state after a frame whose detections carry
/// the track identities `ids`, with `best` the index of the best one and
/// `beats` whether it beats the followed track's first detection by the
/// switching margin. The track followed afterwards is the new state's
/// `locked_id`.
pub open spec fn pick_step(
    s: LockState,
    grace_frames: nat,
    ids: Seq<u64>,
    best: Option<usize>,
    beats: bool,
) -> LockState {
    match s.locked_id {
        None => LockState { locked_id: best_track(ids, best), missing: s.missing },
        Some(id) => if ids.contains(id) {
            let locked = match best {
                Some(b) => if ids[b as int] != id && beats {
                    Some(ids[b as int])
                } else {
                    Some(id)
                },
                None => Some(id),
            };
            LockState { locked_id: locked, missing: 0 }
        } else if s.missing + 1 > grace_frames {
            LockState { locked_id: best_track(ids, best), missing: 0 }
        } else {
            LockState { locked_id: Some(id), missing: (s.missing + 1) as u32 }
        },
    }
}

/// Follows one track across frames. The scores that rank detections are
/// the caller's: each frame it names the best detection and tells whether
/// that one beats the followed track by the switching margin.
#[derive(Debug)]
pub struct TrackLock {
    grace_frames: u32,
    locked_id: Option<u64>,
    missing: u32,
}

impl TrackLock {
    /// The lock's state.
    pub closed spec fn state(&self) -> LockState {
        LockState { locked_id: self.locked_id, missing: self.missing }
    }

    /// For how many frames the followed track may be missing before another
    /// one is followed.
    pub closed spec fn grace(&self) -> nat {
        self.grace_frames as nat
    }

    /// A lock that follows nothing yet.
    pub fn new(grace_frames: u32) -> (r: Self)
        ensures
            r.state() == (LockState { locked_id: None, missing: 0 }),
            r.grace() == grace_frames,
    {
        TrackLock { grace_frames, locked_id: None, missing: 0 }
    }

    /// The track followed, if any.
    pub fn locked_id(&self) -> (r: Option<u64>)
        ensures
            r == self.state().locked_id,
    {
        self.locked_id
    }

    /// For how many frames in a row the followed track has been missing.
    pub fn missing(&self) -> (r: u32)
        ensures
            r == self.state().missing,
    {
        self.missing
    }

    /// Takes the detections of a frame, whose track identities are `ids`,
    /// and gives the track followed from now on. `best` is the index of the
    /// best detection (`None` when there is none) and `beats` whether its
    /// score exceeds the score of the first detection of the followed track
    /// plus the switching margin.
    ///
    /// The followed track is kept while it is in view or missing for no
    /// more than the grace frames; the best detection is followed when
    /// nothing was, when it beats the followed track, or when the followed
    /// track stayed away too long.
    pub fn pick(&mut self, ids: &Vec<u64>, best: Option<usize>, beats: bool) -> (r: Option<u64>)
        requires
            best matches Some(b) ==> b < ids.len(),
            old(self).state().locked_id matches Some(id) && !ids@.contains(id) ==> old(self).state().missing < u32::MAX,
        ensures
            final(self).state() == pick_step(old(self).state(), old(self).grace(), ids@, best, beats),
            final(self).grace() == old(self).grace(),
            r == final(self).state().locked_id,
    {
        let best_id: Option<u64> = match best {
            Some(b) => Some(ids[b]),
            None => None,
        };
        match self.locked_id {
            Some(id) => {
                let mut found = false;
                let mut i: usize = 0;
                while i < ids.len()
                    invariant
                        i <= ids.len(),
                        found == exists|k: int| 0 <= k < i && ids@[k] == id,
                    decreases ids.len() - i,
                {
                    if ids[i] == id {
                        found = true;
                    }
                    i = i + 1;
                }
                if found {
                    proof {
                        let k = choose|k: int| 0 <= k < ids.len() && ids@[k] == id;
                        assert(ids@.contains(id));
                    }
                    self.missing = 0;
                    if let Some(b) = best {
                        if ids[b] != id && beats {
                            self.locked_id = Some(ids[b]);
                        }
                    }
                } else {
                    proof {
                        if ids@.contains(id) {
                            let k = choose|k: int| 0 <= k < ids@.len() && ids@[k] == id;
                        }
                    }
                    self.missing = self.missing + 1;
                    if self.missing > self.grace_frames {
                        self.locked_id = best_id;
                        self.missing = 0;
                    }
                }
            },
            None => {
                self.locked_id = best_id;
            },
        }
        self.locked_id
    }
}

/// Whether `k` is the first position of `tracks` whose detection carries
/// the track `needed`.
pub open spec fn first_of_track(tracks: Seq<Option<u64>>, needed: u64, k: int) -> bool {
    &&& 0 <= k < tracks.len()
    &&& tracks[k] == Some(needed)
    &&& forall|q: int| 0 <= q < k ==> tracks[q] != Some(needed)
}

/// The position of the first detection that carries the track `needed`,
/// among detections given in order with the track each carries, if any.
pub fn find_track(tracks: &Vec<Option<u64>>, needed: u64) -> (r: Option<usize>)
    ensures
        r matches Some(k) ==> first_of_track(tracks@, needed, k as int),
        r is None <==> forall|q: int| 0 <= q < tracks.len() ==> tracks@[q] != Some(needed),
{
    let mut i: usize = 0;
    while i < tracks.len()
        invariant
            i <= tracks.len(),
            forall|q: int| 0 <= q < i ==> tracks@[q] != Some(needed),
        decreases tracks.len() - i,
    {
        if let Some(t) = tracks[i] {
            if t == needed {
                return Some(i);
            }
        }
        i = i + 1;
    }
    None
}

/// A lock that follows a track keeps following it while that track is in
/// view, unless the best detection belongs to another track that beats it.
pub proof fn lemma_lock_kept_in_view(
    s: LockState,
    grace_frames: nat,
    ids: Seq<u64>,
    best: Option<usize>,
    beats: bool,
)
    requires
        s.locked_id matches Some(id) && ids.contains(id),
        !beats,
    ensures
        pick_step(s, grace_frames, ids, best, beats) == (LockState { locked_id: s.locked_id, missing: 0 }),
{
}

/// The followed track only changes to a track in view: whatever the lock
/// follows after a frame either was followed before or is a detection of
/// that frame.
pub proof fn lemma_lock_changes_to_view(
    s: LockState,
    grace_frames: nat,
    ids: Seq<u64>,
    best: Option<usize>,
    beats: bool,
)
    requires
        best matches Some(b) ==> b < ids.len(),
    ensures
        pick_step(s, grace_frames, ids, best, beats).locked_id matches Some(id) ==> s.locked_id == Some(id)
            || ids.contains(id),
{
    if let Some(b) = best {
        assert(ids[b as int] == ids[b as int]);
    }
}

/// With a grace of `g` frames, a followed track that stays away keeps the
/// lock while it has been missing for at most `g` frames in a row.
pub proof fn lemma_lock_survives_grace(s: LockState, grace_frames: nat, ids: Seq<u64>, best: Option<usize>, beats: bool)
    requires
        s.locked_id matches Some(id) && !ids.contains(id),
        s.missing + 1 <= grace_frames,
    ensures
        pick_step(s, grace_frames, ids, best, beats) == (LockState {
            locked_id: s.locked_id,
            missing: (s.missing + 1) as u32,
        }),
{
}

/// A followed track in view gives way to the best detection of another
/// track that beats it by the margin: the lock then follows that track.
pub proof fn lemma_lock_switches_to_better(
    s: LockState,
    grace_frames: nat,
    ids: Seq<u64>,
    id: u64,
    b: usize,
)
    requires
        s.locked_id == Some(id),
        ids.contains(id),
        b < ids.len(),
        ids[b as int] != id,
    ensures
        pick_step(s, grace_frames, ids, Some(b), true) == (LockState { locked_id: Some(ids[b as int]), missing: 0 }),
{
}

/// With nothing followed, the lock takes the best detection's track (none
/// when the frame has no detection) and leaves the missing count alone.
pub proof fn lemma_first_lock_is_best(s: LockState, grace_frames: nat, ids: Seq<u64>, best: Option<usize>, beats: bool)
    requires
        s.locked_id is None,
    ensures
        pick_step(s, grace_frames, ids, best, beats).locked_id == (match best {
            Some(b) => Some(ids[b as int]),
            None => None::<u64>,
        }),
        pick_step(s, grace_frames, ids, best, beats).missing == s.missing,
{
}

/// A followed track that stays away beyond the grace is dropped for the
/// best detection of the frame (none without detections), and the missing
/// count starts again.
pub proof fn lemma_lock_dropped_after_grace(
    s: LockState,
    grace_frames: nat,
    ids: Seq<u64>,
    id: u64,
    best: Option<usize>,
    beats: bool,
)
    requires
        s.locked_id == Some(id),
        !ids.contains(id),
        s.missing + 1 > grace_frames,
    ensures
        pick_step(s, grace_frames, ids, best, beats) == (LockState {
            locked_id: match best {
                Some(b) => Some(ids[b as int]),
                None => None::<u64>,
            },
            missing: 0,
        }),
{
}

} // verus!
