//! The rescan of the USB bus as a state machine: which connected devices
//! are dropped, which devices found on the bus are opened, and how failures
//! to open them are recorded and reported. The caller performs each action
//! (rereading storages, opening a session, logging) and hands back what
//! came of it.
//!
//! No action stops or signals another process: a device that another
//! application holds is reported with the advice to close that
//! application, and is tried again at the next rescan.
use crate::device::{
    device_key, device_key_text, is_connected, matches_connected, open_error_message,
    physical_device_key, physical_text, still_present, useful_serial, vendor_product_key,
    vendor_product_text, ConnectedKeys, DeviceIdentity, OpenFailures,
};
use crate::error::{error_text, Error};
use crate::i18n::Language;
use vstd::prelude::*;

verus! {

/// Where a rescan stands.
#[derive(Debug, Clone, Copy, PartialEq, Eq, Structural)]
pub enum RefreshStage {
    /// Checking whether the connected device at this position is still on
    /// the bus.
    Check(usize),
    /// Waiting to learn whether the storages of the connected device at
    /// this position could be reread.
    Reread(usize),
    /// Considering the device found on the bus at this position.
    Open(usize),
    /// Waiting for the outcome of opening the device found at this position.
    Await(usize),
    /// The rescan is over.
    Done,
}

/// The state of a rescan: the devices found on the bus, the keys of the
/// connected devices, the recorded failures to open devices, the stage, the
/// last failure of this rescan, and the language of its messages.
pub struct RefreshState {
    pub candidates: Vec<DeviceIdentity>,
    pub connected: Vec<ConnectedKeys>,
    pub failures: OpenFailures,
    pub stage: RefreshStage,
    pub latest_error: Option<String>,
    pub language: Language,
}

/// The keys of a connected device: its key, its place on the bus, and its
/// vendor and product.
pub type KeysView = (Seq<char>, Seq<char>, Seq<char>);

/// A rescan's state with its text as character sequences and the recorded
/// failures as a map from device key to message.
pub struct RefreshStateView {
    pub candidates: Seq<DeviceIdentity>,
    pub connected: Seq<KeysView>,
    pub failures: Map<Seq<char>, Seq<char>>,
    pub stage: RefreshStage,
    pub latest_error: Option<Seq<char>>,
    pub language: Language,
}

/// The keys of a connected device as character sequences.
pub open spec fn keys_view(k: ConnectedKeys) -> KeysView {
    (k.key@, k.physical_key@, k.vendor_product_key@)
}

/// The recorded failures as a map from device key to message.
pub open spec fn failures_view(f: OpenFailures) -> Map<Seq<char>, Seq<char>> {
    Map::new(|k: Seq<char>| f.message(k) is Some, |k: Seq<char>| f.message(k)->0)
}

impl View for RefreshState {
    type V = RefreshStateView;

    open spec fn view(&self) -> RefreshStateView {
        RefreshStateView {
            candidates: self.candidates@,
            connected: self.connected@.map_values(|k: ConnectedKeys| keys_view(k)),
            failures: failures_view(self.failures),
            stage: self.stage,
            latest_error: match self.latest_error {
                Some(e) => Some(e@),
                None => None,
            },
            language: self.language,
        }
    }
}

/// What the caller learnt from the last action.
#[derive(Debug)]
pub enum RefreshEvent {
    /// Nothing to report.
    Next,
    /// Whether the storages of the connected device could be reread.
    Reread(bool),
    /// The device found on the bus was opened.
    Opened,
    /// Opening the device found on the bus failed with this error.
    OpenFailed(Error),
}

/// What the caller does next. None of these stops another process.
#[derive(Debug, PartialEq, Eq)]
pub enum RefreshAction {
    /// Nothing; call the step again.
    Continue,
    /// Reread the storages of the connected device with this key.
    Reread { key: String },
    /// Close the session of the device with this key, which has left the
    /// bus: log that it disconnected and mark the volume changed.
    Drop { key: String },
    /// Open the device found on the bus at this position.
    Open { candidate: usize },
    /// Keep the session just opened under this key: log that it connected
    /// and mark the volume changed.
    Keep { key: String },
    /// Opening a device failed with this message; log it when `report`.
    Failed { message: String, report: bool },
    /// The rescan is over; this is the last failure of it, if any.
    Finish { last_error: Option<String> },
}

/// An action with its text as character sequences.
pub enum RefreshActionView {
    Continue,
    Reread { key: Seq<char> },
    Drop { key: Seq<char> },
    Open { candidate: usize },
    Keep { key: Seq<char> },
    Failed { message: Seq<char>, report: bool },
    Finish { last_error: Option<Seq<char>> },
}

impl View for RefreshAction {
    type V = RefreshActionView;

    open spec fn view(&self) -> RefreshActionView {
        match self {
            RefreshAction::Continue => RefreshActionView::Continue,
            RefreshAction::Reread { key } => RefreshActionView::Reread { key: key@ },
            RefreshAction::Drop { key } => RefreshActionView::Drop { key: key@ },
            RefreshAction::Open { candidate } => RefreshActionView::Open { candidate: *candidate },
            RefreshAction::Keep { key } => RefreshActionView::Keep { key: key@ },
            RefreshAction::Failed { message, report } => RefreshActionView::Failed {
                message: message@,
                report: *report,
            },
            RefreshAction::Finish { last_error } => RefreshActionView::Finish {
                last_error: match last_error {
                    Some(e) => Some(e@),
                    None => None,
                },
            },
        }
    }
}

/// Whether the device found on the bus is the connected device with keys `k`.
pub open spec fn matches_keys(c: DeviceIdentity, k: KeysView) -> bool {
    device_key_text(c) == k.0 || physical_text(c) == k.1 || (!useful_serial(c)
        && vendor_product_text(c.vendor_id, c.product_id) == k.2)
}

/// Whether the connected device with keys `k` is among the devices found.
pub open spec fn on_bus(candidates: Seq<DeviceIdentity>, k: KeysView) -> bool {
    exists|j: int| 0 <= j < candidates.len() && matches_keys(#[trigger] candidates[j], k)
}

/// Whether the device found on the bus is one of the connected devices.
pub open spec fn already_connected(c: DeviceIdentity, connected: Seq<KeysView>) -> bool {
    exists|i: int| 0 <= i < connected.len() && matches_keys(c, #[trigger] connected[i])
}

/// The keys a device found on the bus is connected under.
pub open spec fn candidate_keys(c: DeviceIdentity) -> KeysView {
    (device_key_text(c), physical_text(c), vendor_product_text(c.vendor_id, c.product_id))
}

/// The message for a device that could not be opened: the advice to close
/// the application that holds it, or the error.
pub open spec fn open_failure_text(key: Seq<char>, error: Error, language: Language) -> Seq<char> {
    if error matches Error::Mtp { exclusive_access, .. } && exclusive_access {
        language.device_exclusively_held_text(key)
    } else {
        language.open_device_failed_text(key, error_text(error, language))
    }
}

/// One step of a rescan.
///
/// - A connected device is checked against the devices found; one still
///   found is kept. For one not found, its storages are reread, and it is
///   dropped only when that fails and it is still not found.
/// - Then each device found that is not connected is opened. One that
///   opens is kept under its key (its recorded failure is forgotten). One
///   that fails gets its message recorded, reported only when it differs
///   from the one recorded before, and it becomes the rescan's last failure.
/// - Finally the rescan finishes with its last failure.
/// An event that does not answer the pending action changes nothing.
pub open spec fn refresh_next(s: RefreshStateView, e: RefreshEvent) -> (
    RefreshStateView,
    RefreshActionView,
) {
    match s.stage {
        RefreshStage::Check(i) => if i >= s.connected.len() {
            (RefreshStateView { stage: RefreshStage::Open(0), ..s }, RefreshActionView::Continue)
        } else if on_bus(s.candidates, s.connected[i as int]) {
            (
                RefreshStateView { stage: RefreshStage::Check((i + 1) as usize), ..s },
                RefreshActionView::Continue,
            )
        } else {
            (
                RefreshStateView { stage: RefreshStage::Reread(i), ..s },
                RefreshActionView::Reread { key: s.connected[i as int].0 },
            )
        },
        RefreshStage::Reread(i) => match e {
            RefreshEvent::Reread(ok) => if i >= s.connected.len() {
                (
                    RefreshStateView { stage: RefreshStage::Open(0), ..s },
                    RefreshActionView::Continue,
                )
            } else if ok || on_bus(s.candidates, s.connected[i as int]) {
                (
                    RefreshStateView { stage: RefreshStage::Check((i + 1) as usize), ..s },
                    RefreshActionView::Continue,
                )
            } else {
                (
                    RefreshStateView {
                        connected: s.connected.remove(i as int),
                        stage: RefreshStage::Check(i),
                        ..s
                    },
                    RefreshActionView::Drop { key: s.connected[i as int].0 },
                )
            },
            _ => (s, RefreshActionView::Continue),
        },
        RefreshStage::Open(j) => if j >= s.candidates.len() {
            (
                RefreshStateView { stage: RefreshStage::Done, ..s },
                RefreshActionView::Finish { last_error: s.latest_error },
            )
        } else if already_connected(s.candidates[j as int], s.connected) {
            (
                RefreshStateView { stage: RefreshStage::Open((j + 1) as usize), ..s },
                RefreshActionView::Continue,
            )
        } else {
            (
                RefreshStateView { stage: RefreshStage::Await(j), ..s },
                RefreshActionView::Open { candidate: j },
            )
        },
        RefreshStage::Await(j) => if j >= s.candidates.len() {
            (RefreshStateView { stage: RefreshStage::Open(j), ..s }, RefreshActionView::Continue)
        } else {
            let keys = candidate_keys(s.candidates[j as int]);
            match e {
                RefreshEvent::Opened => (
                    RefreshStateView {
                        connected: s.connected.push(keys),
                        failures: s.failures.remove(keys.0),
                        stage: RefreshStage::Open((j + 1) as usize),
                        ..s
                    },
                    RefreshActionView::Keep { key: keys.0 },
                ),
                RefreshEvent::OpenFailed(error) => {
                    let message = open_failure_text(keys.0, error, s.language);
                    (
                        RefreshStateView {
                            failures: s.failures.insert(keys.0, message),
                            stage: RefreshStage::Open((j + 1) as usize),
                            latest_error: Some(message),
                            ..s
                        },
                        RefreshActionView::Failed {
                            message,
                            report: !(s.failures.contains_key(keys.0) && s.failures[keys.0]
                                == message),
                        },
                    )
                },
                _ => (s, RefreshActionView::Continue),
            }
        },
        RefreshStage::Done => (s, RefreshActionView::Finish { last_error: s.latest_error }),
    }
}

/// A connected device is dropped only when it is not found on the bus and
/// its storages could not be reread; it is then the only change to the
/// connected devices.
pub proof fn law_devices_are_dropped_only_when_gone(s: RefreshStateView, e: RefreshEvent)
    requires
        refresh_next(s, e).1 is Drop,
    ensures
        exists|i: usize|
            {
                &&& s.stage == RefreshStage::Reread(i)
                &&& i < s.connected.len()
                &&& e matches RefreshEvent::Reread(ok) && !ok
                &&& !on_bus(s.candidates, #[trigger] s.connected[i as int])
                &&& refresh_next(s, e).1 == (RefreshActionView::Drop { key: s.connected[i as int].0 })
                &&& refresh_next(s, e).0.connected == s.connected.remove(i as int)
            },
{
    match s.stage {
        RefreshStage::Reread(i) => {
            assert(!on_bus(s.candidates, s.connected[i as int]));
        },
        _ => {},
    }
}

/// A device found on the bus is opened only when it is not connected yet.
pub proof fn law_only_unconnected_devices_are_opened(s: RefreshStateView, e: RefreshEvent)
    requires
        refresh_next(s, e).1 is Open,
    ensures
        s.stage == RefreshStage::Open(refresh_next(s, e).1->candidate),
        refresh_next(s, e).1->candidate < s.candidates.len(),
        !already_connected(s.candidates[refresh_next(s, e).1->candidate as int], s.connected),
{
}

/// A failure to open a device is reported once while it stays the same:
/// after a device failed with an error, the same failure at the next
/// attempt records the same message and reports nothing.
pub proof fn law_repeated_open_failures_are_reported_once(
    s: RefreshStateView,
    j: usize,
    error: Error,
)
    requires
        s.stage == RefreshStage::Await(j),
        j < s.candidates.len(),
    ensures
        ({
            let first = refresh_next(s, RefreshEvent::OpenFailed(error));
            let again = refresh_next(
                RefreshStateView { stage: RefreshStage::Await(j), ..first.0 },
                RefreshEvent::OpenFailed(error),
            );
            &&& first.1 matches RefreshActionView::Failed { message, .. } && first.0.latest_error
                == Some(message)
            &&& again.1 matches RefreshActionView::Failed { message: m, report } && !report && m
                == first.1->message
        }),
{
}

proof fn lemma_on_bus(candidates: Seq<DeviceIdentity>, k: ConnectedKeys)
    ensures
        on_bus(candidates, keys_view(k)) == exists|j: int|
            0 <= j < candidates.len() && matches_connected(#[trigger] candidates[j], k),
{
    if on_bus(candidates, keys_view(k)) {
        let j = choose|j: int| 0 <= j < candidates.len() && matches_keys(candidates[j], keys_view(k));
        assert(matches_connected(candidates[j], k));
    }
    if exists|j: int| 0 <= j < candidates.len() && matches_connected(#[trigger] candidates[j], k) {
        let j = choose|j: int| 0 <= j < candidates.len() && matches_connected(candidates[j], k);
        assert(matches_keys(candidates[j], keys_view(k)));
    }
}

proof fn lemma_already_connected(c: DeviceIdentity, connected: Seq<ConnectedKeys>)
    ensures
        already_connected(c, connected.map_values(|k: ConnectedKeys| keys_view(k))) == exists|i: int|
            0 <= i < connected.len() && matches_connected(c, #[trigger] connected[i]),
{
    let views = connected.map_values(|k: ConnectedKeys| keys_view(k));
    if already_connected(c, views) {
        let i = choose|i: int| 0 <= i < views.len() && matches_keys(c, views[i]);
        assert(matches_connected(c, connected[i]));
    }
    if exists|i: int| 0 <= i < connected.len() && matches_connected(c, #[trigger] connected[i]) {
        let i = choose|i: int| 0 <= i < connected.len() && matches_connected(c, connected[i]);
        assert(matches_keys(c, views[i]));
    }
}

impl RefreshState {
    /// The start of a rescan of the devices found on the bus (already told
    /// apart by place), with the keys of the connected devices: the
    /// recorded failures of devices no longer found are forgotten.
    pub fn new(
        candidates: Vec<DeviceIdentity>,
        connected: Vec<ConnectedKeys>,
        failures: OpenFailures,
        language: Language,
    ) -> (r: Self)
        ensures
            r@.candidates == candidates@,
            r@.connected == connected@.map_values(|k: ConnectedKeys| keys_view(k)),
            r@.failures == failures_view(failures).restrict(
                candidates@.map_values(|c: DeviceIdentity| device_key_text(c)).to_set(),
            ),
            r@.stage == RefreshStage::Check(0),
            r@.latest_error is None,
            r@.language == language,
    {
        let mut keys: Vec<String> = Vec::new();
        let mut i: usize = 0;
        while i < candidates.len()
            invariant
                i <= candidates@.len(),
                keys@.len() == i,
                forall|j: int| 0 <= j < i ==> #[trigger] keys@[j]@ == device_key_text(candidates@[j]),
            decreases candidates.len() - i,
        {
            keys.push(device_key(&candidates[i]));
            i = i + 1;
        }
        let mut failures = failures;
        let ghost before = failures;
        failures.retain_present(&keys);
        proof {
            let names = candidates@.map_values(|c: DeviceIdentity| device_key_text(c));
            assert(keys@.map_values(|s: String| s@) =~= names);
            assert(failures_view(failures) =~= failures_view(before).restrict(names.to_set()))
                by {
                assert forall|k: Seq<char>| #[trigger] failures.message(k) == if names.contains(k) {
                    before.message(k)
                } else {
                    None
                } by {}
            }
        }
        RefreshState {
            candidates,
            connected,
            failures,
            stage: RefreshStage::Check(0),
            latest_error: None,
            language,
        }
    }
}

/// One step of a rescan: the next state and what the caller does next, as
/// `refresh_next` states.
pub fn refresh_step(state: RefreshState, event: RefreshEvent) -> (r: (RefreshState, RefreshAction))
    ensures
        (r.0@, r.1@) == refresh_next(state@, event),
{
    let ghost s = state@;
    let mut state = state;
    match state.stage {
        RefreshStage::Check(i) => {
            if i >= state.connected.len() {
                state.stage = RefreshStage::Open(0);
                (state, RefreshAction::Continue)
            } else {
                let present = still_present(&state.candidates, &state.connected[i]);
                proof {
                    lemma_on_bus(state.candidates@, state.connected@[i as int]);
                }
                if present {
                    state.stage = RefreshStage::Check(i + 1);
                    (state, RefreshAction::Continue)
                } else {
                    let key = state.connected[i].key.clone();
                    state.stage = RefreshStage::Reread(i);
                    (state, RefreshAction::Reread { key })
                }
            }
        },
        RefreshStage::Reread(i) => match event {
            RefreshEvent::Reread(ok) => {
                if i >= state.connected.len() {
                    state.stage = RefreshStage::Open(0);
                    (state, RefreshAction::Continue)
                } else {
                    let present = still_present(&state.candidates, &state.connected[i]);
                    proof {
                        lemma_on_bus(state.candidates@, state.connected@[i as int]);
                    }
                    if ok || present {
                        state.stage = RefreshStage::Check(i + 1);
                        (state, RefreshAction::Continue)
                    } else {
                        let ghost old_connected = state.connected@;
                        let removed = state.connected.remove(i);
                        proof {
                            assert(state.connected@.map_values(|k: ConnectedKeys| keys_view(k))
                                =~= old_connected.map_values(|k: ConnectedKeys| keys_view(k)).remove(
                                i as int,
                            ));
                        }
                        state.stage = RefreshStage::Check(i);
                        (state, RefreshAction::Drop { key: removed.key })
                    }
                }
            },
            _ => (state, RefreshAction::Continue),
        },
        RefreshStage::Open(j) => {
            if j >= state.candidates.len() {
                state.stage = RefreshStage::Done;
                let last_error = state.latest_error.clone();
                (state, RefreshAction::Finish { last_error })
            } else {
                let connected = is_connected(&state.candidates[j], &state.connected);
                proof {
                    lemma_already_connected(state.candidates@[j as int], state.connected@);
                }
                if connected {
                    state.stage = RefreshStage::Open(j + 1);
                    (state, RefreshAction::Continue)
                } else {
                    state.stage = RefreshStage::Await(j);
                    (state, RefreshAction::Open { candidate: j })
                }
            }
        },
        RefreshStage::Await(j) => {
            if j >= state.candidates.len() {
                state.stage = RefreshStage::Open(j);
                (state, RefreshAction::Continue)
            } else {
                match event {
                    RefreshEvent::Opened => {
                        let candidate = &state.candidates[j];
                        let key = device_key(candidate);
                        let keys = ConnectedKeys {
                            key: key.clone(),
                            physical_key: physical_device_key(candidate),
                            vendor_product_key: vendor_product_key(candidate),
                        };
                        let ghost old_connected = state.connected@;
                        let ghost old_failures = state.failures;
                        state.connected.push(keys);
                        state.failures.clear(key.as_str());
                        proof {
                            assert(state.connected@.map_values(|k: ConnectedKeys| keys_view(k))
                                =~= old_connected.map_values(|k: ConnectedKeys| keys_view(k)).push(
                                candidate_keys(s.candidates[j as int]),
                            ));
                            assert(failures_view(state.failures) =~= failures_view(
                                old_failures,
                            ).remove(key@)) by {
                                assert forall|k: Seq<char>| #[trigger] state.failures.message(k)
                                    == if k == key@ {
                                    None
                                } else {
                                    old_failures.message(k)
                                } by {}
                            }
                        }
                        state.stage = RefreshStage::Open(j + 1);
                        (state, RefreshAction::Keep { key })
                    },
                    RefreshEvent::OpenFailed(error) => {
                        let key = device_key(&state.candidates[j]);
                        let message = open_error_message(key.as_str(), &error, state.language);
                        let ghost old_failures = state.failures;
                        let report = state.failures.record(key, message.clone());
                        proof {
                            assert(failures_view(state.failures) =~= failures_view(
                                old_failures,
                            ).insert(device_key_text(s.candidates[j as int]), message@)) by {
                                assert forall|k: Seq<char>| #[trigger] state.failures.message(k)
                                    == if k == device_key_text(s.candidates[j as int]) {
                                    Some(message@)
                                } else {
                                    old_failures.message(k)
                                } by {}
                            }
                        }
                        state.stage = RefreshStage::Open(j + 1);
                        state.latest_error = Some(message.clone());
                        (state, RefreshAction::Failed { message, report })
                    },
                    _ => (state, RefreshAction::Continue),
                }
            }
        },
        RefreshStage::Done => {
            let last_error = state.latest_error.clone();
            (state, RefreshAction::Finish { last_error })
        },
    }
}

} // verus!
