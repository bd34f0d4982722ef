use aurascan::control::{backend_for_position, AppAction, AppEvent, AppState, BackendType, ToggleLabel};

#[test]
fn backend_positions() {
    assert_eq!(backend_for_position(0), BackendType::Rocm);
    assert_eq!(backend_for_position(1), BackendType::Vulkan);
    assert_eq!(backend_for_position(2), BackendType::Flex);
    assert_eq!(BackendType::default(), BackendType::Flex);
}

#[test]
fn start_then_started_shows_stop() {
    let mut s = AppState::new();
    assert_eq!(s.toggle_label.text(), "Start");
    assert_eq!(s.update(AppEvent::TogglePipeline { playing: false }), AppAction::PlayPipeline);
    assert!(s.start_requested);
    assert_eq!(s.toggle_label, ToggleLabel::Start);
    assert_eq!(s.update(AppEvent::PipelineStateChanged { started: true }), AppAction::Nothing);
    assert!(!s.start_requested);
    assert_eq!(s.toggle_label.text(), "Stop");
    assert_eq!(s.update(AppEvent::TogglePipeline { playing: true }), AppAction::StopPipeline);
    assert_eq!(s, AppState::new());
}

#[test]
fn started_without_request_changes_nothing() {
    let mut s = AppState::new();
    assert_eq!(s.update(AppEvent::PipelineStateChanged { started: true }), AppAction::Nothing);
    assert_eq!(s, AppState::new());
}

#[test]
fn error_cancels_pending_start() {
    let mut s = AppState::new();
    s.update(AppEvent::TogglePipeline { playing: false });
    assert_eq!(
        s.update(AppEvent::Error("Failed to start the pipeline".to_string())),
        AppAction::ShowError("Failed to start the pipeline".to_string())
    );
    assert!(!s.start_requested);
    assert_eq!(s.update(AppEvent::HideError), AppAction::HideError);
}

#[test]
fn other_events_issue_commands() {
    let mut s = AppState::new();
    assert_eq!(s.update(AppEvent::SourceChanged), AppAction::SetSource);
    assert_eq!(s.update(AppEvent::BackendSelected(1)), AppAction::SetBackend(BackendType::Vulkan));
    assert_eq!(s.update(AppEvent::ResolutionSelected { some: true }), AppAction::SetResolution);
    assert_eq!(s.update(AppEvent::ResolutionSelected { some: false }), AppAction::Nothing);
    assert_eq!(s, AppState::new());
}
