//! The decisions of the camera viewfinder: its state as cameras come and
//! go, what a camera change does to the stream, and how a pending state
//! change of the camera pipeline is finished.
use vstd::prelude::*;

verus! {

/// Where the viewfinder stands.
#[derive(Debug, Clone, Copy, PartialEq, Eq, Structural)]
pub enum ViewfinderState {
    Loading,
    Ready,
    NoCameras,
    Error,
}

impl Default for ViewfinderState {
    fn default() -> (r: Self)
        ensures
            r == ViewfinderState::Loading,
    {
        ViewfinderState::Loading
    }
}

/// What a request to show another camera leads to.
#[derive(Debug, Clone, Copy, PartialEq, Eq, Structural)]
pub enum CameraChange {
    /// The viewfinder is neither ready nor failed: the request is refused.
    Refused,
    /// The camera asked for is the one shown: nothing to do.
    Unchanged,
    /// The camera is taken: the viewfinder moves to `state`, stops the
    /// stream first when `stop_stream`, and sets the camera element up when
    /// `setup` (that is, when a camera rather than none was asked for).
    Proceed { state: ViewfinderState, stop_stream: bool, setup: bool },
}

/// What a request to show another camera leads to, as a function of the
/// viewfinder's state, whether the camera asked for is the one shown,
/// whether the device list has a first camera, whether the widget is
/// realized, whether the pipeline is playing or paused, and whether a
/// camera rather than none was asked for.
pub open spec fn spec_camera_change(
    state: ViewfinderState,
    same_camera: bool,
    has_first_camera: bool,
    realized: bool,
    running: bool,
    has_camera: bool,
) -> CameraChange {
    if !(state == ViewfinderState::Ready || state == ViewfinderState::Error) {
        CameraChange::Refused
    } else if same_camera {
        CameraChange::Unchanged
    } else {
        CameraChange::Proceed {
            state: if state == ViewfinderState::Error {
                if has_first_camera {
                    ViewfinderState::Ready
                } else {
                    ViewfinderState::NoCameras
                }
            } else {
                state
            },
            stop_stream: realized && running,
            setup: has_camera,
        }
    }
}

/// Decides what a request to show another camera leads to.
pub fn camera_change(
    state: ViewfinderState,
    same_camera: bool,
    has_first_camera: bool,
    realized: bool,
    running: bool,
    has_camera: bool,
) -> (r: CameraChange)
    ensures
        r == spec_camera_change(state, same_camera, has_first_camera, realized, running, has_camera),
{
    match state {
        ViewfinderState::Ready | ViewfinderState::Error => {},
        _ => {
            return CameraChange::Refused;
        },
    }
    if same_camera {
        return CameraChange::Unchanged;
    }
    let next = match state {
        ViewfinderState::Error => if has_first_camera {
            ViewfinderState::Ready
        } else {
            ViewfinderState::NoCameras
        },
        other => other,
    };
    CameraChange::Proceed { state: next, stop_stream: realized && running, setup: has_camera }
}

/// The state after the camera element was set up (or failed to be), and
/// whether the stream starts: it does when the widget is realized and the
/// viewfinder is ready.
pub open spec fn spec_after_camera_setup(state: ViewfinderState, setup_failed: bool, realized: bool) -> (
    ViewfinderState,
    bool,
) {
    let s = if setup_failed {
        ViewfinderState::Error
    } else {
        state
    };
    (s, realized && s == ViewfinderState::Ready)
}

/// Decides the state after a camera setup and whether the stream starts.
pub fn after_camera_setup(state: ViewfinderState, setup_failed: bool, realized: bool) -> (r: (
    ViewfinderState,
    bool,
))
    ensures
        r == spec_after_camera_setup(state, setup_failed, realized),
{
    let s = if setup_failed {
        ViewfinderState::Error
    } else {
        state
    };
    let ready = match s {
        ViewfinderState::Ready => true,
        _ => false,
    };
    (s, realized && ready)
}

/// At start: when a camera is available and the viewfinder is not yet
/// ready, it becomes ready and shows that camera. Gives the new state when
/// it changes.
pub fn on_init(state: ViewfinderState, has_camera: bool) -> (r: Option<ViewfinderState>)
    ensures
        r == (if has_camera && state != ViewfinderState::Ready {
            Some(ViewfinderState::Ready)
        } else {
            None::<ViewfinderState>
        }),
{
    if !has_camera {
        return None;
    }
    match state {
        ViewfinderState::Ready => None,
        _ => Some(ViewfinderState::Ready),
    }
}

/// When no camera has shown up after a while, a viewfinder still loading
/// has no cameras.
pub fn on_loading_timeout(state: ViewfinderState) -> (r: ViewfinderState)
    ensures
        r == (if state == ViewfinderState::Loading {
            ViewfinderState::NoCameras
        } else {
            state
        }),
{
    match state {
        ViewfinderState::Loading => ViewfinderState::NoCameras,
        other => other,
    }
}

/// An error of the pipeline puts the viewfinder in error unless the
/// pipeline is playing.
pub fn on_pipeline_error(state: ViewfinderState, playing: bool) -> (r: ViewfinderState)
    ensures
        r == (if playing {
            state
        } else {
            ViewfinderState::Error
        }),
{
    if playing {
        state
    } else {
        ViewfinderState::Error
    }
}

/// How the last state change of the camera pipeline stands.
#[derive(Debug, Clone, Copy, PartialEq, Eq, Structural)]
pub enum StateChangeState {
    /// It finished in the state asked for now.
    Equal,
    /// It finished in another state.
    Differ,
    /// It failed.
    Error,
    /// It is still going on.
    NotDone,
}

/// What the outcome of waiting for the last state change tells: `outcome`
/// is `None` when it failed, `Some(true)` when it is still going on, and
/// `Some(false)` when it finished; `reached_target` tells whether the
/// current state is the one asked for now.
pub fn classify_state_change(outcome: Option<bool>, reached_target: bool) -> (r: StateChangeState)
    ensures
        r == (match outcome {
            None => StateChangeState::Error,
            Some(true) => StateChangeState::NotDone,
            Some(false) => if reached_target {
                StateChangeState::Equal
            } else {
                StateChangeState::Differ
            },
        }),
{
    match outcome {
        None => StateChangeState::Error,
        Some(pending) => if pending {
            StateChangeState::NotDone
        } else if reached_target {
            StateChangeState::Equal
        } else {
            StateChangeState::Differ
        },
    }
}

/// What to do to reach the state asked for.
#[derive(Debug, Clone, Copy, PartialEq, Eq, Structural)]
pub enum StateChangeAction {
    /// The pipeline is already there.
    Nothing,
    /// Abort the change still going on, unlock the state, then set it.
    AbortThenSetState,
    /// Set the state.
    SetState,
}

/// What to do to reach the state asked for, from how the last change stands.
pub fn state_change_action(s: StateChangeState) -> (r: StateChangeAction)
    ensures
        r == (match s {
            StateChangeState::Equal => StateChangeAction::Nothing,
            StateChangeState::NotDone => StateChangeAction::AbortThenSetState,
            _ => StateChangeAction::SetState,
        }),
{
    match s {
        StateChangeState::Equal => StateChangeAction::Nothing,
        StateChangeState::NotDone => StateChangeAction::AbortThenSetState,
        StateChangeState::Error | StateChangeState::Differ => StateChangeAction::SetState,
    }
}

} // verus!
