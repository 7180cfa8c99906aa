//! The onboarding wizard's state machine.
//!
//! A three-step flow — authentication, local folder choice, confirmation —
//! holding the transient identity and sync-root values gathered on the way.
//! The surrounding process performs the actual calls (starting the daemon's
//! auth flow, opening the browser, listening for the auth signal, writing
//! the configuration, triggering the first sync) and feeds the outcomes back
//! in; this controller decides what happens next.  Cancelling at any step
//! discards everything gathered and returns to the first step.

use vstd::prelude::*;

use crate::bytes::ascii_bytes;
use crate::bytes::bytes_eq;
use crate::bytes::push_all;
use crate::bytes::str_bytes;

verus! {

/// Which page of the wizard is showing.
#[derive(Clone, Copy, PartialEq, Eq, Structural, Debug)]
pub enum OnboardingStep {
    Auth,
    FolderChoice,
    Confirm,
}

/// The transient values gathered while the wizard runs.  Populated
/// monotonically as it advances and read, never rewritten, by later steps.
pub struct OnboardingState {
    pub account_email: Option<Vec<u8>>,
    pub account_name: Option<Vec<u8>>,
    pub sync_root: Option<Vec<u8>>,
}

impl OnboardingState {
    /// Nothing gathered yet.
    pub open spec fn is_empty(&self) -> bool {
        &&& self.account_email is None
        &&& self.account_name is None
        &&& self.sync_root is None
    }

    pub fn new_empty() -> (r: OnboardingState)
        ensures
            r.is_empty(),
    {
        OnboardingState { account_email: None, account_name: None, sync_root: None }
    }
}

/// What the controller asks of its surroundings after an auth signal.
#[derive(Clone, Copy, PartialEq, Eq, Structural, Debug)]
pub enum AuthSignalAction {
    /// The daemon reported `authenticated`: fetch the account info, then
    /// call [`OnboardingController::on_account_info`].
    FetchAccountInfo,
    /// The daemon reported `error`: surface the failure; the wizard stays on
    /// the auth step and stops listening.
    ReportAuthFailure,
    /// A transient value, or a signal arriving after cancellation: ignore it
    /// and keep (or stay done) waiting.
    Ignore,
}

/// The wizard controller.
pub struct OnboardingController {
    pub step: OnboardingStep,
    pub state: OnboardingState,
    /// True while an auth-signal subscription is live.  A signal arriving
    /// when this is false — after a cancel — must not be applied.
    pub waiting_for_auth: bool,
}

impl OnboardingController {
    /// The accumulated values a step can rely on.
    pub open spec fn wf(&self) -> bool {
        &&& self.step is Confirm ==> self.state.sync_root is Some
        &&& self.waiting_for_auth ==> self.step is Auth
    }

    /// A fresh wizard on the auth step with nothing gathered.
    pub fn new() -> (r: OnboardingController)
        ensures
            r.step is Auth,
            r.state.is_empty(),
            !r.waiting_for_auth,
            r.wf(),
    {
        OnboardingController {
            step: OnboardingStep::Auth,
            state: OnboardingState::new_empty(),
            waiting_for_auth: false,
        }
    }

    /// The daemon's auth flow was started and the signal subscription is
    /// live: wait for the outcome.
    pub fn on_auth_started(&mut self)
        requires
            old(self).wf(),
            old(self).step is Auth,
        ensures
            final(self).step == old(self).step,
            final(self).state == old(self).state,
            final(self).waiting_for_auth,
            final(self).wf(),
    {
        self.waiting_for_auth = true;
    }

    /// An `AuthStateChanged` signal arrived.  Exactly the value
    /// `authenticated` advances the flow; exactly `error` fails it and stops
    /// the wait; every other value is ignored.  A signal arriving when no
    /// wait is live (after a cancel) is ignored whole: a late event never
    /// touches the state.
    pub fn on_auth_signal(&mut self, signal: &[u8]) -> (a: AuthSignalAction)
        requires
            old(self).wf(),
        ensures
            final(self).step == old(self).step,
            final(self).state == old(self).state,
            final(self).wf(),
            !old(self).waiting_for_auth ==> *final(self) == *old(self) && a
                == AuthSignalAction::Ignore,
            old(self).waiting_for_auth ==> {
                if signal@ == ascii_bytes("authenticated"@) {
                    &&& a == AuthSignalAction::FetchAccountInfo
                    &&& final(self).waiting_for_auth
                } else if signal@ == ascii_bytes("error"@) {
                    &&& a == AuthSignalAction::ReportAuthFailure
                    &&& !final(self).waiting_for_auth
                } else {
                    &&& a == AuthSignalAction::Ignore
                    &&& final(self).waiting_for_auth
                }
            },
    {
        proof {
            reveal_strlit("authenticated");
            reveal_strlit("error");
        }
        if !self.waiting_for_auth {
            return AuthSignalAction::Ignore;
        }
        if bytes_eq(signal, str_bytes("authenticated").as_slice()) {
            AuthSignalAction::FetchAccountInfo
        } else if bytes_eq(signal, str_bytes("error").as_slice()) {
            self.waiting_for_auth = false;
            AuthSignalAction::ReportAuthFailure
        } else {
            AuthSignalAction::Ignore
        }
    }

    /// The account info fetched after a successful authentication arrived:
    /// store the identity and advance to the folder choice.  Ignored whole
    /// when the wait was cancelled in the meantime.
    pub fn on_account_info(&mut self, email: Option<Vec<u8>>, name: Option<Vec<u8>>)
        requires
            old(self).wf(),
        ensures
            final(self).wf(),
            !old(self).waiting_for_auth ==> *final(self) == *old(self),
            old(self).waiting_for_auth ==> {
                &&& final(self).step is FolderChoice
                &&& !final(self).waiting_for_auth
                &&& final(self).state.account_email == email
                &&& final(self).state.account_name == name
                &&& final(self).state.sync_root == old(self).state.sync_root
            },
    {
        if !self.waiting_for_auth {
            return ;
        }
        self.waiting_for_auth = false;
        self.state.account_email = email;
        self.state.account_name = name;
        self.step = OnboardingStep::FolderChoice;
    }

    /// The user confirmed a local sync root on the folder page: store it and
    /// advance to the confirmation page.  The path was already validated as
    /// a usable directory by the folder picker.
    pub fn choose_folder(&mut self, path: Vec<u8>)
        requires
            old(self).wf(),
            old(self).step is FolderChoice,
        ensures
            final(self).step is Confirm,
            final(self).state.sync_root == Some(path),
            final(self).state.account_email == old(self).state.account_email,
            final(self).state.account_name == old(self).state.account_name,
            final(self).waiting_for_auth == old(self).waiting_for_auth,
            final(self).wf(),
    {
        self.state.sync_root = Some(path);
        self.step = OnboardingStep::Confirm;
    }

    /// The configuration text written when syncing starts: the chosen sync
    /// root as one quoted line.
    pub open spec fn spec_confirm_config(&self) -> Seq<u8>
        recommends
            self.state.sync_root is Some,
    {
        ascii_bytes("sync_root: \""@) + self.state.sync_root.unwrap()@ + ascii_bytes("\"\n"@)
    }

    /// Exec mirror of [`spec_confirm_config`].
    pub fn confirm_config(&self) -> (r: Vec<u8>)
        requires
            self.wf(),
            self.step is Confirm,
        ensures
            r@ == self.spec_confirm_config(),
    {
        proof {
            reveal_strlit("sync_root: \"");
            reveal_strlit("\"\n");
        }
        let mut out: Vec<u8> = Vec::new();
        push_all(&mut out, str_bytes("sync_root: \"").as_slice());
        match &self.state.sync_root {
            Some(p) => push_all(&mut out, p.as_slice()),
            None => {
                assert(false);
            },
        }
        push_all(&mut out, str_bytes("\"\n").as_slice());
        out
    }

    /// The configuration write finished.  Only a success goes on to trigger
    /// the first sync — when the write failed, the sync must not be
    /// attempted, the failure is surfaced, and the wizard stays on the
    /// confirmation page for a retry.
    pub fn on_settings_written(&mut self, ok: bool) -> (trigger_sync: bool)
        requires
            old(self).wf(),
            old(self).step is Confirm,
        ensures
            *final(self) == *old(self),
            trigger_sync == ok,
            final(self).wf(),
    {
        ok
    }

    /// The first sync trigger finished.  On success the wizard is done and
    /// the caller switches the application into its steady-state mode; on
    /// failure the failure is surfaced and the wizard stays on the
    /// confirmation page for a retry.
    pub fn on_sync_triggered(&mut self, ok: bool) -> (done: bool)
        requires
            old(self).wf(),
            old(self).step is Confirm,
        ensures
            *final(self) == *old(self),
            done == ok,
            final(self).wf(),
    {
        ok
    }

    /// Cancel from any step: every gathered value is discarded, any live
    /// auth wait is stopped, and the wizard returns to the auth step.
    pub fn cancel(&mut self)
        ensures
            final(self).step is Auth,
            final(self).state.is_empty(),
            !final(self).waiting_for_auth,
            final(self).wf(),
    {
        self.state = OnboardingState::new_empty();
        self.waiting_for_auth = false;
        self.step = OnboardingStep::Auth;
    }
}

/// What the application shows at startup.
#[derive(Clone, Copy, PartialEq, Eq, Structural, Debug)]
pub enum StartupScreen {
    /// Authenticated: the steady-state preferences view.
    Preferences,
    /// Not authenticated: the onboarding wizard.
    Onboarding,
    /// The daemon could not be asked; reported once, with no retry loop.
    ConnectionError,
}

/// Decide the startup view from the daemon's answer about the current
/// authentication state.
pub fn startup_screen(auth: &Result<bool, crate::error::DbusError>) -> (r: StartupScreen)
    ensures
        r == StartupScreen::Preferences <==> auth == Ok::<bool, crate::error::DbusError>(true),
        r == StartupScreen::Onboarding <==> auth == Ok::<bool, crate::error::DbusError>(false),
        r == StartupScreen::ConnectionError <==> auth is Err,
{
    match auth {
        Ok(true) => StartupScreen::Preferences,
        Ok(false) => StartupScreen::Onboarding,
        Err(_) => StartupScreen::ConnectionError,
    }
}

/// The email and display name found in the account-info pairs: the value of
/// the first `email` key and of the first `display_name` key, if present.
pub open spec fn spec_identity_of(
    pairs: Seq<(Seq<u8>, Seq<u8>)>,
    key: Seq<u8>,
) -> Option<Seq<u8>>
    decreases pairs.len(),
{
    if pairs.len() == 0 {
        None
    } else if pairs[0].0 == key {
        Some(pairs[0].1)
    } else {
        spec_identity_of(pairs.drop_first(), key)
    }
}

/// Pick the `email` and `display_name` values out of the account-info
/// key-value pairs the daemon returned.
pub fn identity_from_pairs(pairs: &Vec<(Vec<u8>, Vec<u8>)>) -> (r: (
    Option<Vec<u8>>,
    Option<Vec<u8>>,
))
    ensures
        ({
            let dv = Seq::new(pairs@.len(), |i: int| (pairs@[i].0@, pairs@[i].1@));
            &&& (r.0 matches Some(v) ==> spec_identity_of(dv, ascii_bytes("email"@)) == Some(v@))
            &&& (r.0 is None ==> spec_identity_of(dv, ascii_bytes("email"@)) is None)
            &&& (r.1 matches Some(v) ==> spec_identity_of(dv, ascii_bytes("display_name"@))
                == Some(v@))
            &&& (r.1 is None ==> spec_identity_of(dv, ascii_bytes("display_name"@)) is None)
        }),
{
    proof {
        reveal_strlit("email");
        reveal_strlit("display_name");
    }
    let email = lookup_pair(pairs, str_bytes("email").as_slice());
    let name = lookup_pair(pairs, str_bytes("display_name").as_slice());
    (email, name)
}

/// The value of the first pair whose key is `key`.
fn lookup_pair(pairs: &Vec<(Vec<u8>, Vec<u8>)>, key: &[u8]) -> (r: Option<Vec<u8>>)
    ensures
        ({
            let dv = Seq::new(pairs@.len(), |i: int| (pairs@[i].0@, pairs@[i].1@));
            match r {
                Some(v) => spec_identity_of(dv, key@) == Some(v@),
                None => spec_identity_of(dv, key@) is None,
            }
        }),
{
    let ghost dv = Seq::new(pairs@.len(), |i: int| (pairs@[i].0@, pairs@[i].1@));
    proof {
        assert(dv.subrange(0, dv.len() as int) =~= dv);
    }
    let mut i: usize = 0;
    while i < pairs.len()
        invariant
            i <= pairs@.len(),
            dv == Seq::new(pairs@.len(), |i: int| (pairs@[i].0@, pairs@[i].1@)),
            spec_identity_of(dv, key@) == spec_identity_of(
                dv.subrange(i as int, dv.len() as int),
                key@,
            ),
        decreases pairs@.len() - i,
    {
        proof {
            assert(dv.subrange(0, dv.len() as int) =~= dv);
            let rest = dv.subrange(i as int, dv.len() as int);
            assert(rest[0] == dv[i as int]);
            assert(rest.drop_first() =~= dv.subrange(i + 1 as int, dv.len() as int));
        }
        if bytes_eq(pairs[i].0.as_slice(), key) {
            let v = crate::bytes::bytes_of(pairs[i].1.as_slice());
            return Some(v);
        }
        i += 1;
    }
    proof {
        assert(dv.subrange(dv.len() as int, dv.len() as int) =~= Seq::<(Seq<u8>, Seq<u8>)>::empty());
    }
    None
}

} // verus!
