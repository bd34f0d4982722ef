//! Choosing one face among the tracked detections of each frame, and
//! keeping to it while it stays in view.
use vstd::prelude::*;

verus! {

/// The selector's state: the identity of the face selected, if any, and
/// for how many frames in a row that face has been missing.
#[derive(Debug, Clone, Copy, PartialEq, Eq, Structural)]
pub struct SelectorState {
    pub current_id: Option<u64>,
    pub missing: usize,
}

/// Keeps to one face across frames. The scores that rank faces are the
/// caller's: each frame it names the best face and tells whether that face
/// beats the selected one by the switching margin.
#[derive(Debug)]
pub struct FaceSelector {
    missing_threshold: usize,
    current_id: Option<u64>,
    missing: usize,
}


/// The identity of the best detection, if there is one.
pub open spec fn best_id(ids: Seq<u64>, best: Option<usize>) -> Option<u64> {
    match best {
        Some(b) => Some(ids[b as int]),
        None => None,
    }
}

/// One step of the selector: the state after a frame whose detections have
/// the identities `ids`, with `best` the index of the best one and
/// `beats` whether it beats the selected face by the margin, and the
/// identity reported for the frame.
pub open spec fn select_step(
    s: SelectorState,
    threshold: nat,
    ids: Seq<u64>,
    best: Option<usize>,
    beats: bool,
) -> (SelectorState, Option<u64>) {
    match s.current_id {
        None => {
            let cur = best_id(ids, best);
            (SelectorState { current_id: cur, missing: s.missing }, cur)
        },
        Some(c) => if ids.contains(c) {
            let cur = match best {
                Some(b) => if ids[b as int] != c && beats {
                    Some(ids[b as int])
                } else {
                    Some(c)
                },
                None => Some(c),
            };
            (SelectorState { current_id: cur, missing: 0 }, cur)
        } else if s.missing + 1 > threshold {
            let cur = best_id(ids, best);
            (SelectorState { current_id: cur, missing: 0 }, cur)
        } else {
            (SelectorState { current_id: Some(c), missing: (s.missing + 1) as usize }, None)
        },
    }
}

impl FaceSelector {
    /// The selector's state.
    pub closed spec fn state(&self) -> SelectorState {
        SelectorState { current_id: self.current_id, missing: self.missing }
    }

    /// For how many frames the selected face may be missing before another
    /// one is chosen.
    pub closed spec fn threshold(&self) -> nat {
        self.missing_threshold as nat
    }

    /// A selector with no face selected. `missing_threshold` is how many
    /// frames in a row the selected face may be missing before the best face
    /// in view takes its place.
    pub fn new(missing_threshold: usize) -> (s: Self)
        ensures
            s.state() == (SelectorState { current_id: None, missing: 0 }),
            s.threshold() == missing_threshold,
    {
        FaceSelector { missing_threshold, current_id: None, missing: 0 }
    }

    /// The identity of the face selected.
    pub fn current_id(&self) -> (r: Option<u64>)
        ensures
            r == self.state().current_id,
    {
        self.current_id
    }

    /// For how many frames in a row the selected face has been missing.
    pub fn missing(&self) -> (r: usize)
        ensures
            r == self.state().missing,
    {
        self.missing
    }

    /// Selects a face among the detections of a frame, whose identities are
    /// `ids`, and reports its identity. `best` is the index of the detection
    /// with the highest score (`None` when there is none), and `beats` tells
    /// whether that score exceeds the score of the selected face plus the
    /// switching margin.
    ///
    /// Reports `None` when there is no detection to choose from, or when
    /// the selected face is missing from the frame and has not been missing
    /// long enough to be dropped.
    pub fn select(&mut self, ids: &Vec<u64>, best: Option<usize>, beats: bool) -> (r: Option<u64>)
        requires
            best matches Some(b) ==> b < ids.len(),
            best is None <==> ids.len() == 0,
            old(self).state().current_id matches Some(c) && !ids@.contains(c) ==> old(self).state().missing < usize::MAX,
        ensures
            (final(self).state(), r) == select_step(old(self).state(), old(self).threshold(), ids@, best, beats),
            final(self).threshold() == old(self).threshold(),
    {
        let best_id: Option<u64> = match best {
            Some(b) => Some(ids[b]),
            None => None,
        };
        let current_id = match self.current_id {
            None => {
                self.current_id = best_id;
                return self.current_id;
            },
            Some(c) => c,
        };
        let mut found = false;
        let mut i: usize = 0;
        while i < ids.len()
            invariant
                i <= ids.len(),
                found == exists|k: int| 0 <= k < i && ids@[k] == current_id,
            decreases ids.len() - i,
        {
            if ids[i] == current_id {
                found = true;
            }
            i = i + 1;
        }
        if !found {
            proof {
                if ids@.contains(current_id) {
                    let k = choose|k: int| 0 <= k < ids@.len() && ids@[k] == current_id;
                }
            }
            self.missing = self.missing + 1;
            if self.missing > self.missing_threshold {
                self.missing = 0;
                self.current_id = best_id;
                return self.current_id;
            }
            return None;
        }
        proof {
            let k = choose|k: int| 0 <= k < ids.len() && ids@[k] == current_id;
            assert(ids@.contains(current_id));
        }
        self.missing = 0;
        if let Some(b) = best {
            if ids[b] != current_id && beats {
                self.current_id = Some(ids[b]);
            }
        }
        self.current_id
    }
}

/// A face reported for a frame is always one of that frame's detections.
pub proof fn lemma_selected_face_in_view(
    s: SelectorState,
    threshold: nat,
    ids: Seq<u64>,
    best: Option<usize>,
    beats: bool,
)
    requires
        best matches Some(b) ==> b < ids.len(),
    ensures
        select_step(s, threshold, ids, best, beats).1 matches Some(id) ==> ids.contains(id),
{
    if let Some(b) = best {
        assert(ids[b as int] == ids[b as int]);
    }
}

/// Whether `states` and `reported` follow the selector through `frames`,
/// starting with the face `c` selected, and `c` stays out of view.
pub open spec fn missing_run(
    threshold: nat,
    c: u64,
    frames: Seq<(Seq<u64>, Option<usize>, bool)>,
    states: Seq<SelectorState>,
    reported: Seq<Option<u64>>,
) -> bool {
    &&& states.len() == frames.len() + 1
    &&& reported.len() == frames.len()
    &&& states[0].current_id == Some(c)
    &&& forall|i: int| 0 <= i < frames.len() ==> !(#[trigger] frames[i]).0.contains(c)
    &&& forall|i: int|
        0 <= i < frames.len() ==> (states[i + 1], reported[i]) == select_step(
            #[trigger] states[i],
            threshold,
            frames[i].0,
            frames[i].1,
            frames[i].2,
        )
}

proof fn lemma_missing_prefix(
    threshold: nat,
    c: u64,
    frames: Seq<(Seq<u64>, Option<usize>, bool)>,
    states: Seq<SelectorState>,
    reported: Seq<Option<u64>>,
    i: int,
)
    requires
        threshold <= usize::MAX,
        missing_run(threshold, c, frames, states, reported),
        0 <= i <= frames.len(),
        states[0].missing + i <= threshold,
    ensures
        states[i] == (SelectorState { current_id: Some(c), missing: (states[0].missing + i) as usize }),
    decreases i,
{
    if i > 0 {
        lemma_missing_prefix(threshold, c, frames, states, reported, i - 1);
        let k = i - 1;
        assert(!frames[k].0.contains(c));
        assert((states[k + 1], reported[k]) == select_step(states[k], threshold, frames[k].0, frames[k].1, frames[k].2));
    }
}

/// While the selected face `c` stays out of view, the selector reports
/// nothing and keeps `c` for as long as the missing count allows; the frame
/// after that drops `c` for the best face of that frame (nothing when there
/// is none) and resets the count. `states[i]` is the state before frame `i`,
/// whose detections are `frames[i]` (identities, best index, whether the
/// best beats the selected face), and `reported[i]` what that frame gave.
pub proof fn lemma_missing_face_dropped(
    threshold: nat,
    c: u64,
    frames: Seq<(Seq<u64>, Option<usize>, bool)>,
    states: Seq<SelectorState>,
    reported: Seq<Option<u64>>,
)
    requires
        threshold <= usize::MAX,
        missing_run(threshold, c, frames, states, reported),
        states[0].missing <= threshold,
    ensures
        forall|i: int|
            0 <= i < frames.len() && states[0].missing + i < threshold ==> #[trigger] reported[i] == None::<u64> && states[i
                + 1] == (SelectorState { current_id: Some(c), missing: (states[0].missing + i + 1) as usize }),
        ({
            let d = threshold - states[0].missing;
            d < frames.len() ==> reported[d] == best_id(frames[d].0, frames[d].1) && states[d + 1] == (SelectorState {
                current_id: best_id(frames[d].0, frames[d].1),
                missing: 0,
            })
        }),
{
    let m = states[0].missing;
    assert forall|i: int|
        0 <= i < frames.len() && m + i < threshold implies #[trigger] reported[i] == None::<u64> && states[i + 1] == (
        SelectorState { current_id: Some(c), missing: (m + i + 1) as usize }) by {
        lemma_missing_prefix(threshold, c, frames, states, reported, i);
        lemma_missing_prefix(threshold, c, frames, states, reported, i + 1);
        assert(!frames[i].0.contains(c));
        assert((states[i + 1], reported[i]) == select_step(states[i], threshold, frames[i].0, frames[i].1, frames[i].2));
    }
    let d = threshold - m;
    if d < frames.len() {
        lemma_missing_prefix(threshold, c, frames, states, reported, d);
        assert(!frames[d].0.contains(c));
        assert((states[d + 1], reported[d]) == select_step(states[d], threshold, frames[d].0, frames[d].1, frames[d].2));
    }
}

/// A selected face that stays in view is kept, unless the best face in view
/// is another one that beats it by the margin.
pub proof fn lemma_present_face_kept(
    s: SelectorState,
    threshold: nat,
    ids: Seq<u64>,
    best: Option<usize>,
    beats: bool,
)
    requires
        s.current_id matches Some(c) && ids.contains(c),
        !beats,
    ensures
        select_step(s, threshold, ids, best, beats).0 == (SelectorState { current_id: s.current_id, missing: 0 }),
        select_step(s, threshold, ids, best, beats).1 == s.current_id,
{
}

/// A selected face in view gives way to the best face of the frame when
/// that is another face that beats it by the margin: the selector then
/// selects and reports that face.
pub proof fn lemma_better_face_taken(s: SelectorState, threshold: nat, ids: Seq<u64>, c: u64, b: usize)
    requires
        s.current_id == Some(c),
        ids.contains(c),
        b < ids.len(),
        ids[b as int] != c,
    ensures
        select_step(s, threshold, ids, Some(b), true) == (
            SelectorState { current_id: Some(ids[b as int]), missing: 0 },
            Some(ids[b as int]),
        ),
{
}

/// With no face selected, the selector takes the best face of the frame,
/// reports it and leaves the missing count alone; with no detection it
/// still selects nothing.
pub proof fn lemma_first_face_is_best(s: SelectorState, threshold: nat, ids: Seq<u64>, best: Option<usize>, beats: bool)
    requires
        s.current_id is None,
    ensures
        select_step(s, threshold, ids, best, beats).0.current_id == (match best {
            Some(b) => Some(ids[b as int]),
            None => None::<u64>,
        }),
        select_step(s, threshold, ids, best, beats).1 == select_step(s, threshold, ids, best, beats).0.current_id,
        select_step(s, threshold, ids, best, beats).0.missing == s.missing,
{
}

} // verus!
