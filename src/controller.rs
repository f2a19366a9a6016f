//! Notifications exchanged around the editor.

use vstd::prelude::*;

verus! {

/// A notification to be shown to the user in an event log or status bar.
#[derive(Clone, Debug)]
pub enum StatusNotification {
    /// A single event.
    Event { label: String },
    /// A background task has started; `handle` pairs it with its finish.
    BackgroundTaskStarted { label: String, handle: usize },
    /// The background task started under `handle` has finished.
    BackgroundTaskFinished { handle: usize },
}

/// A notification of the editor's controller, for use inside the program.
#[derive(Clone, Copy, Debug, PartialEq, Eq, Structural)]
pub enum Notification {
    /// A new project was created and opened.
    NewProjectCreated,
    /// An existing project was opened.
    ProjectOpened,
}

} // verus!
