//! The decisions of the application window: what each user action or
//! pipeline report does to the window's state and which pipeline command
//! it issues.
use vstd::prelude::*;

verus! {

/// The compute backend that runs inference.
#[derive(Debug, Clone, Copy, PartialEq, Eq, Structural)]
pub enum BackendType {
    Flex,
    Vulkan,
    Rocm,
}

impl Default for BackendType {
    fn default() -> (r: Self)
        ensures
            r == BackendType::Flex,
    {
        BackendType::Flex
    }
}

/// The backend offered at position `idx` of the backend list, which reads
/// ROCm, Vulkan, Flex.
pub open spec fn backend_at(idx: u32) -> BackendType {
    if idx == 0 {
        BackendType::Rocm
    } else if idx == 1 {
        BackendType::Vulkan
    } else {
        BackendType::Flex
    }
}

/// The backend offered at position `idx` of the backend list.
pub fn backend_for_position(idx: u32) -> (r: BackendType)
    requires
        idx < 3,
    ensures
        r == backend_at(idx),
{
    match idx {
        0 => BackendType::Rocm,
        1 => BackendType::Vulkan,
        _ => BackendType::Flex,
    }
}

/// The caption of the start/stop button.
#[derive(Debug, Clone, Copy, PartialEq, Eq, Structural)]
pub enum ToggleLabel {
    Start,
    Stop,
}

impl ToggleLabel {
    /// The caption's text.
    pub fn text(&self) -> (r: &'static str)
        ensures
            *self == ToggleLabel::Start ==> r@ == "Start"@,
            *self == ToggleLabel::Stop ==> r@ == "Stop"@,
    {
        match self {
            ToggleLabel::Start => "Start",
            ToggleLabel::Stop => "Stop",
        }
    }
}

/// What the window receives: a user action or a report of the pipeline.
#[derive(Debug, Clone, PartialEq, Eq)]
pub enum AppEvent {
    /// Another camera was chosen.
    SourceChanged,
    /// The start/stop button was pressed while the pipeline was playing or
    /// not.
    TogglePipeline { playing: bool },
    /// The pipeline changed state, to started or to another state.
    PipelineStateChanged { started: bool },
    /// Position `idx` of the backend list was chosen.
    BackendSelected(u32),
    /// A resolution was announced, or the absence of one.
    ResolutionSelected { some: bool },
    /// The pipeline failed, with the error's message.
    Error(String),
    /// The error dialog was dismissed.
    HideError,
}

/// What the window asks of the pipeline and the dialogs in answer.
#[derive(Debug, Clone, PartialEq, Eq)]
pub enum AppAction {
    Nothing,
    /// Switch the pipeline to the chosen camera.
    SetSource,
    /// Clear the measurements shown and stop the pipeline.
    StopPipeline,
    /// Start the pipeline, reporting an error if it fails.
    PlayPipeline,
    /// Run inference on the given backend.
    SetBackend(BackendType),
    /// Switch the pipeline to the announced resolution.
    SetResolution,
    /// Show the error dialog with the reported message as its text.
    ShowError(String),
    /// Hide the error dialog.
    HideError,
}

/// The window's own state: the start/stop caption and whether a start was
/// asked for and not yet seen to happen (a spinner shows meanwhile).
#[derive(Debug, Clone, Copy, PartialEq, Eq, Structural)]
pub struct AppState {
    pub toggle_label: ToggleLabel,
    pub start_requested: bool,
}

/// Whether an event can be handled: a backend position must be one of the
/// three offered.
pub open spec fn event_valid(e: AppEvent) -> bool {
    e matches AppEvent::BackendSelected(idx) ==> idx < 3
}

/// The state after an event.
pub open spec fn next_state(s: AppState, e: AppEvent) -> AppState {
    match e {
        AppEvent::TogglePipeline { playing } => if playing {
            AppState { toggle_label: ToggleLabel::Start, start_requested: false }
        } else {
            AppState { start_requested: true, ..s }
        },
        AppEvent::PipelineStateChanged { started } => if started && s.start_requested {
            AppState { toggle_label: ToggleLabel::Stop, start_requested: false }
        } else {
            s
        },
        AppEvent::Error(_) => AppState { start_requested: false, ..s },
        _ => s,
    }
}

/// The command issued in answer to an event.
pub open spec fn action_for(e: AppEvent) -> AppAction {
    match e {
        AppEvent::SourceChanged => AppAction::SetSource,
        AppEvent::TogglePipeline { playing } => if playing {
            AppAction::StopPipeline
        } else {
            AppAction::PlayPipeline
        },
        AppEvent::PipelineStateChanged { .. } => AppAction::Nothing,
        AppEvent::BackendSelected(idx) => AppAction::SetBackend(backend_at(idx)),
        AppEvent::ResolutionSelected { some } => if some {
            AppAction::SetResolution
        } else {
            AppAction::Nothing
        },
        AppEvent::Error(message) => AppAction::ShowError(message),
        AppEvent::HideError => AppAction::HideError,
    }
}

impl AppState {
    /// The state of a new window: stopped, nothing requested.
    pub fn new() -> (r: Self)
        ensures
            r == (AppState { toggle_label: ToggleLabel::Start, start_requested: false }),
    {
        AppState { toggle_label: ToggleLabel::Start, start_requested: false }
    }

    /// Handles one event: updates the state and gives the command to run.
    pub fn update(&mut self, event: AppEvent) -> (action: AppAction)
        requires
            event_valid(event),
        ensures
            *final(self) == next_state(*old(self), event),
            action == action_for(event),
    {
        match event {
            AppEvent::SourceChanged => AppAction::SetSource,
            AppEvent::TogglePipeline { playing } => {
                if playing {
                    self.start_requested = false;
                    self.toggle_label = ToggleLabel::Start;
                    AppAction::StopPipeline
                } else {
                    self.start_requested = true;
                    AppAction::PlayPipeline
                }
            },
            AppEvent::PipelineStateChanged { started } => {
                if started && self.start_requested {
                    self.toggle_label = ToggleLabel::Stop;
                    self.start_requested = false;
                }
                AppAction::Nothing
            },
            AppEvent::BackendSelected(idx) => AppAction::SetBackend(backend_for_position(idx)),
            AppEvent::ResolutionSelected { some } => {
                if some {
                    AppAction::SetResolution
                } else {
                    AppAction::Nothing
                }
            },
            AppEvent::Error(message) => {
                if self.start_requested {
                    self.start_requested = false;
                }
                AppAction::ShowError(message)
            },
            AppEvent::HideError => AppAction::HideError,
        }
    }
}

/// A start that was asked for stays pending through every report of a
/// state other than started, and only the report that the pipeline started
/// turns the button into Stop and ends the wait; without a pending start,
/// no state report changes the window.
pub proof fn lemma_start_pending_until_started(s: AppState)
    ensures
        next_state(s, AppEvent::PipelineStateChanged { started: false }) == s,
        s.start_requested ==> next_state(s, AppEvent::PipelineStateChanged { started: true }) == (AppState {
            toggle_label: ToggleLabel::Stop,
            start_requested: false,
        }),
        !s.start_requested ==> next_state(s, AppEvent::PipelineStateChanged { started: true }) == s,
        next_state(
            next_state(
                next_state(s, AppEvent::TogglePipeline { playing: false }),
                AppEvent::PipelineStateChanged { started: false },
            ),
            AppEvent::PipelineStateChanged { started: true },
        ) == (AppState { toggle_label: ToggleLabel::Stop, start_requested: false }),
{
}

/// Pressing the button while playing stops: the caption reads Start and no
/// start is pending; pressing it while stopped asks for a start and leaves
/// the caption as it was until the pipeline reports that it started; an
/// error ends a pending start and leaves the caption alone.
pub proof fn lemma_toggle_and_error(s: AppState, message: String)
    ensures
        next_state(s, AppEvent::TogglePipeline { playing: true }) == (AppState {
            toggle_label: ToggleLabel::Start,
            start_requested: false,
        }),
        next_state(s, AppEvent::TogglePipeline { playing: false }) == (AppState {
            toggle_label: s.toggle_label,
            start_requested: true,
        }),
        next_state(s, AppEvent::Error(message)) == (AppState { toggle_label: s.toggle_label, start_requested: false }),
        action_for(AppEvent::Error(message)) == AppAction::ShowError(message),
{
}

} // verus!
