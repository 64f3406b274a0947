//! The state of a download and how the commands of its user change it.
use vstd::prelude::*;

verus! {

/// The state of a download.
#[derive(Clone, Copy, Debug, PartialEq, Eq, Structural)]
pub enum DownloadState {
    Downloading,
    Paused,
    Stopped,
    Completed,
    Error,
    Initialized,
}

/// A command that the user of a download sends to it.
#[derive(Clone, Copy, Debug, PartialEq, Eq, Structural)]
pub enum DownloadCommand {
    Start,
    Pause,
    Resume,
    Stop,
}

/// What a command does to a download: the state after it, and the command
/// that is passed on to the running download, if any.
#[derive(Clone, Copy, Debug, PartialEq, Eq, Structural)]
pub struct Transition {
    pub state: DownloadState,
    pub notify: Option<DownloadCommand>,
}

/// What a running download does with the next piece in a given state.
#[derive(Clone, Copy, Debug, PartialEq, Eq, Structural)]
pub enum PieceGate {
    /// Download the piece.
    Proceed,
    /// Wait until the download is no longer paused, then download the piece.
    WaitWhilePaused,
    /// Save what was downloaded so far and download no further piece.
    SaveAndEnd,
    /// Download no further piece.
    End,
}

impl DownloadState {
    /// Pausing: a paused download stays as it is; any other becomes paused and
    /// the running download is told to pause.
    pub open spec fn spec_pause(self) -> Transition {
        if self == DownloadState::Paused {
            Transition { state: self, notify: None }
        } else {
            Transition { state: DownloadState::Paused, notify: Some(DownloadCommand::Pause) }
        }
    }

    /// Resuming: a downloading download stays as it is; any other is told to
    /// resume and becomes downloading.
    pub open spec fn spec_resume(self) -> Transition {
        if self == DownloadState::Downloading {
            Transition { state: self, notify: None }
        } else {
            Transition { state: DownloadState::Downloading, notify: Some(DownloadCommand::Resume) }
        }
    }

    /// Stopping: a stopped download stays as it is; any other becomes stopped
    /// and the running download is told to stop.
    pub open spec fn spec_stop(self) -> Transition {
        if self == DownloadState::Stopped {
            Transition { state: self, notify: None }
        } else {
            Transition { state: DownloadState::Stopped, notify: Some(DownloadCommand::Stop) }
        }
    }

    /// The effect of a pause request on this state.
    pub fn pause(self) -> (r: Transition)
        ensures
            r == self.spec_pause(),
    {
        if self == DownloadState::Paused {
            Transition { state: self, notify: None }
        } else {
            Transition { state: DownloadState::Paused, notify: Some(DownloadCommand::Pause) }
        }
    }

    /// The effect of a resume request on this state.
    pub fn resume(self) -> (r: Transition)
        ensures
            r == self.spec_resume(),
    {
        if self == DownloadState::Downloading {
            Transition { state: self, notify: None }
        } else {
            Transition { state: DownloadState::Downloading, notify: Some(DownloadCommand::Resume) }
        }
    }

    /// The effect of a stop request on this state.
    pub fn stop(self) -> (r: Transition)
        ensures
            r == self.spec_stop(),
    {
        if self == DownloadState::Stopped {
            Transition { state: self, notify: None }
        } else {
            Transition { state: DownloadState::Stopped, notify: Some(DownloadCommand::Stop) }
        }
    }

    /// What a download task does before each piece in this state.
    pub open spec fn spec_gate(self) -> PieceGate {
        match self {
            DownloadState::Paused => PieceGate::WaitWhilePaused,
            DownloadState::Stopped => PieceGate::SaveAndEnd,
            DownloadState::Completed => PieceGate::End,
            _ => PieceGate::Proceed,
        }
    }

    /// What a download task does before each piece in this state.
    pub fn gate(self) -> (r: PieceGate)
        ensures
            r == self.spec_gate(),
    {
        match self {
            DownloadState::Paused => PieceGate::WaitWhilePaused,
            DownloadState::Stopped => PieceGate::SaveAndEnd,
            DownloadState::Completed => PieceGate::End,
            _ => PieceGate::Proceed,
        }
    }
}

/// The state a download ends in once all its tasks are done: completed when
/// every piece was downloaded, stopped otherwise.
pub fn final_state(completed_pieces: usize, total_pieces: usize) -> (r: DownloadState)
    ensures
        completed_pieces >= total_pieces ==> r == DownloadState::Completed,
        completed_pieces < total_pieces ==> r == DownloadState::Stopped,
{
    if completed_pieces >= total_pieces {
        DownloadState::Completed
    } else {
        DownloadState::Stopped
    }
}

/// After a pause the download is paused; after a resume it is downloading;
/// after a stop it is stopped, whatever state it was in.
pub proof fn lemma_commands_reach_their_state(s: DownloadState)
    ensures
        s.spec_pause().state == DownloadState::Paused,
        s.spec_resume().state == DownloadState::Downloading,
        s.spec_stop().state == DownloadState::Stopped,
{
}

/// Pausing, resuming or stopping twice does what doing it once does, and the
/// second request is not passed on to the running download.
pub proof fn lemma_commands_idempotent(s: DownloadState)
    ensures
        s.spec_pause().state.spec_pause().state == s.spec_pause().state,
        (s.spec_pause().state.spec_pause().notify is None),
        s.spec_resume().state.spec_resume().state == s.spec_resume().state,
        (s.spec_resume().state.spec_resume().notify is None),
        s.spec_stop().state.spec_stop().state == s.spec_stop().state,
        (s.spec_stop().state.spec_stop().notify is None),
{
}

/// A command is passed on to the running download exactly when it changes the
/// state.
pub proof fn lemma_notify_iff_change(s: DownloadState)
    ensures
        (s.spec_pause().notify is Some) == (s.spec_pause().state != s),
        (s.spec_resume().notify is Some) == (s.spec_resume().state != s),
        (s.spec_stop().notify is Some) == (s.spec_stop().state != s),
{
}

} // verus!
