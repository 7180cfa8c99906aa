//! The onboarding wizard's state machine.

use lnxdrive_client::error::DbusError;
use lnxdrive_client::onboarding::{
    identity_from_pairs, startup_screen, AuthSignalAction, OnboardingController, OnboardingStep,
    StartupScreen,
};

fn advance_to_confirm() -> OnboardingController {
    let mut c = OnboardingController::new();
    c.on_auth_started();
    assert_eq!(c.on_auth_signal(b"authenticated"), AuthSignalAction::FetchAccountInfo);
    c.on_account_info(Some(b"user@example.com".to_vec()), Some(b"User".to_vec()));
    assert_eq!(c.step, OnboardingStep::FolderChoice);
    c.choose_folder(b"/home/user/OneDrive".to_vec());
    assert_eq!(c.step, OnboardingStep::Confirm);
    c
}

#[test]
fn cancel_from_any_step_resets_everything() {
    // from the auth wait
    let mut c = OnboardingController::new();
    c.on_auth_started();
    c.cancel();
    assert_eq!(c.step, OnboardingStep::Auth);
    assert!(c.state.account_email.is_none());
    assert!(c.state.account_name.is_none());
    assert!(c.state.sync_root.is_none());

    // from the folder step
    let mut c = OnboardingController::new();
    c.on_auth_started();
    c.on_auth_signal(b"authenticated");
    c.on_account_info(Some(b"a@b".to_vec()), None);
    c.cancel();
    assert_eq!(c.step, OnboardingStep::Auth);
    assert!(c.state.account_email.is_none());

    // from the confirm step, previously fetched identity is discarded
    let mut c = advance_to_confirm();
    c.cancel();
    assert_eq!(c.step, OnboardingStep::Auth);
    assert!(c.state.account_email.is_none());
    assert!(c.state.account_name.is_none());
    assert!(c.state.sync_root.is_none());
}

#[test]
fn auth_signal_values() {
    let mut c = OnboardingController::new();
    c.on_auth_started();
    // transient values keep the wait alive
    assert_eq!(c.on_auth_signal(b"refreshing"), AuthSignalAction::Ignore);
    assert!(c.waiting_for_auth);
    // an error ends the wait and stays on the auth step
    assert_eq!(c.on_auth_signal(b"error"), AuthSignalAction::ReportAuthFailure);
    assert!(!c.waiting_for_auth);
    assert_eq!(c.step, OnboardingStep::Auth);
}

#[test]
fn late_events_after_cancel_are_not_applied() {
    let mut c = OnboardingController::new();
    c.on_auth_started();
    c.cancel();
    assert_eq!(c.on_auth_signal(b"authenticated"), AuthSignalAction::Ignore);
    c.on_account_info(Some(b"late@example.com".to_vec()), None);
    assert_eq!(c.step, OnboardingStep::Auth);
    assert!(c.state.account_email.is_none());
}

#[test]
fn confirm_config_carries_the_chosen_root() {
    let c = advance_to_confirm();
    assert_eq!(
        String::from_utf8(c.confirm_config()).unwrap(),
        "sync_root: \"/home/user/OneDrive\"\n"
    );
}

#[test]
fn failed_settings_write_blocks_the_sync_trigger() {
    let mut c = advance_to_confirm();
    assert!(!c.on_settings_written(false));
    assert_eq!(c.step, OnboardingStep::Confirm);
    assert!(c.on_settings_written(true));
    assert!(!c.on_sync_triggered(false));
    assert_eq!(c.step, OnboardingStep::Confirm);
    assert!(c.on_sync_triggered(true));
}

#[test]
fn identity_lookup_from_account_info() {
    let pairs = vec![
        (b"quota".to_vec(), b"100".to_vec()),
        (b"email".to_vec(), b"user@example.com".to_vec()),
        (b"display_name".to_vec(), b"User Name".to_vec()),
        (b"email".to_vec(), b"second@example.com".to_vec()),
    ];
    let (email, name) = identity_from_pairs(&pairs);
    assert_eq!(email, Some(b"user@example.com".to_vec()));
    assert_eq!(name, Some(b"User Name".to_vec()));
    let (none_email, none_name) = identity_from_pairs(&Vec::new());
    assert!(none_email.is_none());
    assert!(none_name.is_none());
}

#[test]
fn startup_screen_decision() {
    assert_eq!(startup_screen(&Ok(true)), StartupScreen::Preferences);
    assert_eq!(startup_screen(&Ok(false)), StartupScreen::Onboarding);
    assert_eq!(
        startup_screen(&Err(DbusError::Transport(b"no bus".to_vec()))),
        StartupScreen::ConnectionError
    );
}
