use aurascan::viewfinder::{
    after_camera_setup, camera_change, classify_state_change, on_init, on_loading_timeout, on_pipeline_error,
    state_change_action, CameraChange, StateChangeAction, StateChangeState, ViewfinderState,
};

#[test]
fn camera_change_needs_ready_or_error() {
    assert_eq!(
        camera_change(ViewfinderState::Loading, false, true, true, true, true),
        CameraChange::Refused
    );
    assert_eq!(
        camera_change(ViewfinderState::NoCameras, false, true, true, true, true),
        CameraChange::Refused
    );
    assert_eq!(
        camera_change(ViewfinderState::Ready, true, true, true, true, true),
        CameraChange::Unchanged
    );
}

#[test]
fn camera_change_from_error() {
    assert_eq!(
        camera_change(ViewfinderState::Error, false, true, true, true, true),
        CameraChange::Proceed { state: ViewfinderState::Ready, stop_stream: true, setup: true }
    );
    assert_eq!(
        camera_change(ViewfinderState::Error, false, false, false, true, false),
        CameraChange::Proceed { state: ViewfinderState::NoCameras, stop_stream: false, setup: false }
    );
    assert_eq!(
        camera_change(ViewfinderState::Ready, false, false, true, false, true),
        CameraChange::Proceed { state: ViewfinderState::Ready, stop_stream: false, setup: true }
    );
}

#[test]
fn stream_starts_after_good_setup() {
    assert_eq!(after_camera_setup(ViewfinderState::Ready, false, true), (ViewfinderState::Ready, true));
    assert_eq!(after_camera_setup(ViewfinderState::Ready, true, true), (ViewfinderState::Error, false));
    assert_eq!(after_camera_setup(ViewfinderState::Ready, false, false), (ViewfinderState::Ready, false));
    assert_eq!(
        after_camera_setup(ViewfinderState::NoCameras, false, true),
        (ViewfinderState::NoCameras, false)
    );
}

#[test]
fn viewfinder_lifecycle_events() {
    assert_eq!(ViewfinderState::default(), ViewfinderState::Loading);
    assert_eq!(on_init(ViewfinderState::Loading, true), Some(ViewfinderState::Ready));
    assert_eq!(on_init(ViewfinderState::Ready, true), None);
    assert_eq!(on_init(ViewfinderState::Error, false), None);
    assert_eq!(on_loading_timeout(ViewfinderState::Loading), ViewfinderState::NoCameras);
    assert_eq!(on_loading_timeout(ViewfinderState::Ready), ViewfinderState::Ready);
    assert_eq!(on_pipeline_error(ViewfinderState::Ready, true), ViewfinderState::Ready);
    assert_eq!(on_pipeline_error(ViewfinderState::Ready, false), ViewfinderState::Error);
}

#[test]
fn pending_state_changes() {
    assert_eq!(classify_state_change(None, true), StateChangeState::Error);
    assert_eq!(classify_state_change(Some(true), true), StateChangeState::NotDone);
    assert_eq!(classify_state_change(Some(false), true), StateChangeState::Equal);
    assert_eq!(classify_state_change(Some(false), false), StateChangeState::Differ);
    assert_eq!(state_change_action(StateChangeState::Equal), StateChangeAction::Nothing);
    assert_eq!(state_change_action(StateChangeState::NotDone), StateChangeAction::AbortThenSetState);
    assert_eq!(state_change_action(StateChangeState::Error), StateChangeAction::SetState);
    assert_eq!(state_change_action(StateChangeState::Differ), StateChangeAction::SetState);
}
