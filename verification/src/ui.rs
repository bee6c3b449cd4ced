//! The decisions of the menu-bar app: polling, the single-instance signal,
//! the login item, the tray menu and the language choices.
use crate::i18n::Language;
use crate::mount::{contains_text, occurs_in};
use crate::settings::{AppearancePreference, LanguagePreference};
use crate::text::str_equals;
use vstd::prelude::*;

verus! {

/// Allows one snapshot request at a time.
#[derive(Debug, Clone, Copy, PartialEq, Eq, Structural)]
pub struct SnapshotPoll {
    pub in_flight: bool,
}

impl Default for SnapshotPoll {
    fn default() -> (r: Self)
        ensures
            !r.in_flight,
    {
        SnapshotPoll { in_flight: false }
    }
}

impl SnapshotPoll {
    /// Starts a request unless one is under way; tells whether it started.
    pub fn begin(&mut self) -> (r: bool)
        ensures
            r == !old(self).in_flight,
            final(self).in_flight,
    {
        if self.in_flight {
            false
        } else {
            self.in_flight = true;
            true
        }
    }

    /// Ends the request under way, whether it succeeded or failed.
    pub fn finish(&mut self)
        ensures
            !final(self).in_flight,
    {
        self.in_flight = false;
    }
}

/// Whether a message is exactly the signal (`show`) that a second instance
/// sends to show the first one's window.
pub fn is_show_signal(message: &[u8]) -> (r: bool)
    ensures
        r == (message@ == seq![0x73u8, 0x68u8, 0x6fu8, 0x77u8]),
{
    if message.len() != 4 {
        return false;
    }
    let same = message[0] == 0x73 && message[1] == 0x68 && message[2] == 0x6f && message[3] == 0x77;
    proof {
        if same {
            assert(message@ =~= seq![0x73u8, 0x68u8, 0x6fu8, 0x77u8]);
        }
    }
    same
}

/// The state of the "open at login" registration.
#[derive(Debug, Clone, Copy, PartialEq, Eq, Structural)]
pub enum LoginStatus {
    Disabled,
    Enabled,
    RequiresApproval,
    Unavailable,
}

impl LoginStatus {
    /// Whether the app is registered to open at login (possibly waiting for
    /// the user's approval).
    pub fn is_registered(self) -> (r: bool)
        ensures
            r == (self is Enabled || self is RequiresApproval),
    {
        match self {
            LoginStatus::Enabled | LoginStatus::RequiresApproval => true,
            _ => false,
        }
    }
}

/// What the service-management framework reports for the app.
#[derive(Debug, Clone, Copy, PartialEq, Eq, Structural)]
pub enum ServiceState {
    NotRegistered,
    Enabled,
    RequiresApproval,
    NotFound,
}

/// The login status of a reported service state: a service that is not
/// found counts as not registered.
pub fn login_status(state: ServiceState) -> (r: LoginStatus)
    ensures
        r == (match state {
            ServiceState::Enabled => LoginStatus::Enabled,
            ServiceState::RequiresApproval => LoginStatus::RequiresApproval,
            ServiceState::NotRegistered | ServiceState::NotFound => LoginStatus::Disabled,
        }),
{
    match state {
        ServiceState::Enabled => LoginStatus::Enabled,
        ServiceState::RequiresApproval => LoginStatus::RequiresApproval,
        ServiceState::NotRegistered | ServiceState::NotFound => LoginStatus::Disabled,
    }
}

/// What switching "open at login" takes.
#[derive(Debug, Clone, Copy, PartialEq, Eq, Structural)]
pub enum LoginStep {
    /// The current state already matches.
    Keep,
    Register,
    Unregister,
}

/// What switching "open at login" to `enabled` takes from `current`.
pub fn login_step(current: LoginStatus, enabled: bool) -> (r: LoginStep)
    ensures
        r == (if enabled {
            if current is Enabled || current is RequiresApproval {
                LoginStep::Keep
            } else {
                LoginStep::Register
            }
        } else if current is Disabled {
            LoginStep::Keep
        } else {
            LoginStep::Unregister
        }),
{
    if enabled {
        if current.is_registered() {
            LoginStep::Keep
        } else {
            LoginStep::Register
        }
    } else {
        match current {
            LoginStatus::Disabled => LoginStep::Keep,
            _ => LoginStep::Unregister,
        }
    }
}

/// The id of the tray icon.
pub const TRAY_ID: &'static str = "mtpdrive.main";

/// The id of the "show" menu item.
pub const MENU_SHOW: &'static str = "mtpdrive.show";

/// The id of the "open in Finder" menu item.
pub const MENU_OPEN: &'static str = "mtpdrive.open";

/// The id of the "rescan" menu item.
pub const MENU_REFRESH: &'static str = "mtpdrive.refresh";

/// The id of the "quit" menu item.
pub const MENU_QUIT: &'static str = "mtpdrive.quit";

/// What a tray menu item asks for.
#[derive(Debug, Clone, Copy, PartialEq, Eq, Structural)]
pub enum TrayAction {
    Show,
    OpenFinder,
    RefreshDevices,
    Quit,
}

/// The action of a menu item: only MTPDrive's own ids map to one.
pub fn menu_action(id: &str) -> (r: Option<TrayAction>)
    ensures
        r == (if id@ == MENU_SHOW@ {
            Some(TrayAction::Show)
        } else if id@ == MENU_OPEN@ {
            Some(TrayAction::OpenFinder)
        } else if id@ == MENU_REFRESH@ {
            Some(TrayAction::RefreshDevices)
        } else if id@ == MENU_QUIT@ {
            Some(TrayAction::Quit)
        } else {
            None
        }),
{
    if str_equals(id, MENU_SHOW) {
        Some(TrayAction::Show)
    } else if str_equals(id, MENU_OPEN) {
        Some(TrayAction::OpenFinder)
    } else if str_equals(id, MENU_REFRESH) {
        Some(TrayAction::RefreshDevices)
    } else if str_equals(id, MENU_QUIT) {
        Some(TrayAction::Quit)
    } else {
        None
    }
}

/// Whether a tray event comes from the active tray icon.
pub fn is_active_tray_id(active: Option<&str>, event: &str) -> (r: bool)
    ensures
        r == (match active {
            Some(a) => a@ == event@,
            None => false,
        }),
{
    match active {
        Some(a) => str_equals(a, event),
        None => false,
    }
}

/// Whether an error message is about the background service, which the
/// app then offers to restart.
pub open spec fn mentions_service(value: Seq<char>) -> bool {
    ||| occurs_in(value, "daemon"@)
    ||| occurs_in(value, "service"@)
    ||| occurs_in(value, "后台服务"@)
    ||| occurs_in(value, "MTPDrive 服务"@)
}

/// Whether an error message is about the background service.
pub fn is_service_error(value: &str) -> (r: bool)
    ensures
        r == mentions_service(value@),
{
    contains_text(value, "daemon") || contains_text(value, "service") || contains_text(value, "后台服务")
        || contains_text(value, "MTPDrive 服务")
}

/// A choice in the language picker.
#[derive(Debug, Clone, Copy, PartialEq, Eq)]
pub struct LanguageOption {
    pub preference: LanguagePreference,
    pub label: &'static str,
}

/// The language choices: the system default (labelled in the current
/// language), English and Simplified Chinese (each in its own language).
pub fn language_options(language: Language) -> (r: Vec<LanguageOption>)
    ensures
        r@.len() == 3,
        r@[0].preference == LanguagePreference::System,
        r@[0].label@ == language.table().system_default@,
        r@[1].preference == LanguagePreference::English,
        r@[1].label@ == "English"@,
        r@[2].preference == LanguagePreference::SimplifiedChinese,
        r@[2].label@ == "简体中文"@,
{
    let mut r: Vec<LanguageOption> = Vec::new();
    r.push(
        LanguageOption {
            preference: LanguagePreference::System,
            label: language.strings().system_default,
        },
    );
    r.push(LanguageOption { preference: LanguagePreference::English, label: "English" });
    r.push(LanguageOption { preference: LanguagePreference::SimplifiedChinese, label: "简体中文" });
    r
}

/// The appearance the system reports.
#[derive(Debug, Clone, Copy, PartialEq, Eq, Structural)]
pub enum SystemMode {
    Light,
    Dark,
    /// The system reports none.
    Unknown,
}

/// Whether the app draws dark: as the system does (dark unless it reports
/// light), or as the user chose.
pub fn effective_dark(preference: AppearancePreference, system_mode: SystemMode) -> (r: bool)
    ensures
        r == (match preference {
            AppearancePreference::System => !(system_mode is Light),
            AppearancePreference::Light => false,
            AppearancePreference::Dark => true,
        }),
{
    match preference {
        AppearancePreference::System => match system_mode {
            SystemMode::Light => false,
            _ => true,
        },
        AppearancePreference::Light => false,
        AppearancePreference::Dark => true,
    }
}

} // verus!
