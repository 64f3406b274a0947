use torrex::connection::download::{final_state, DownloadCommand, DownloadState, PieceGate};

#[test]
fn pause_resume_stop() {
    let t = DownloadState::Downloading.pause();
    assert_eq!(t.state, DownloadState::Paused);
    assert_eq!(t.notify, Some(DownloadCommand::Pause));
    let again = t.state.pause();
    assert_eq!(again.state, DownloadState::Paused);
    assert_eq!(again.notify, None);
    let r = t.state.resume();
    assert_eq!(r.state, DownloadState::Downloading);
    assert_eq!(r.notify, Some(DownloadCommand::Resume));
    assert_eq!(r.state.resume().notify, None);
    let s = DownloadState::Initialized.stop();
    assert_eq!(s.state, DownloadState::Stopped);
    assert_eq!(s.notify, Some(DownloadCommand::Stop));
    assert_eq!(s.state.stop().notify, None);
}

#[test]
fn gate_before_each_piece() {
    assert_eq!(DownloadState::Paused.gate(), PieceGate::WaitWhilePaused);
    assert_eq!(DownloadState::Stopped.gate(), PieceGate::SaveAndEnd);
    assert_eq!(DownloadState::Completed.gate(), PieceGate::End);
    assert_eq!(DownloadState::Error.gate(), PieceGate::Proceed);
    assert_eq!(DownloadState::Downloading.gate(), PieceGate::Proceed);
    assert_eq!(DownloadState::Initialized.gate(), PieceGate::Proceed);
}

#[test]
fn final_states() {
    assert_eq!(final_state(10, 10), DownloadState::Completed);
    assert_eq!(final_state(11, 10), DownloadState::Completed);
    assert_eq!(final_state(9, 10), DownloadState::Stopped);
}
