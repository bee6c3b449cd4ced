//! The debug rendering of daemon replies, as shown in messages about a
//! reply of the wrong kind: the shape `{:?}` gives the reply types (struct
//! and variant names, `field: value` lists, `[..]` lists, quoted strings).
use crate::model::{
    ControlResponse, DeviceSummary, LogLevel, LogRecord, MountState, ServiceSnapshot,
    StorageSummary,
};
use crate::settings::{AppSettings, AppearancePreference, LanguagePreference, ThemeColor};
use crate::text::{decimal, decimal_string, decimal_string_u128, hex, hex_string, push_char};
use vstd::prelude::*;

verus! {

/// A character inside a quoted string: `\0`, `\t`, `\r`, `\n`, `\\` and `\"`
/// are escaped by a backslash, other ASCII control characters as `\u{..}`
/// with lower-case hexadecimal digits; every other character stands as it
/// is.
pub open spec fn escaped_char(c: char) -> Seq<char> {
    if c == '\0' {
        seq!['\\', '0']
    } else if c == '\t' {
        seq!['\\', 't']
    } else if c == '\r' {
        seq!['\\', 'r']
    } else if c == '\n' {
        seq!['\\', 'n']
    } else if c == '\\' {
        seq!['\\', '\\']
    } else if c == '"' {
        seq!['\\', '"']
    } else if c < ' ' || c == '\u{7f}' {
        seq!['\\', 'u', '{'] + hex((c as u32) as nat) + seq!['}']
    } else {
        seq![c]
    }
}

/// The characters of `s`, each escaped.
pub open spec fn escaped(s: Seq<char>) -> Seq<char>
    decreases s.len(),
{
    if s.len() == 0 {
        Seq::empty()
    } else {
        escaped(s.drop_last()) + escaped_char(s.last())
    }
}

/// Escaping works character by character: nothing for no text, a
/// character's own escape for one, and two texts joined escape to their
/// escapes joined. Characters that need no escape stand as they are.
pub proof fn law_escaping_is_per_character(a: Seq<char>, b: Seq<char>, c: char)
    ensures
        escaped(Seq::<char>::empty()) == Seq::<char>::empty(),
        escaped(seq![c]) == escaped_char(c),
        escaped(a + b) == escaped(a) + escaped(b),
        (' ' <= c && c != '"' && c != '\\' && c != '\u{7f}') ==> escaped_char(c) == seq![c],
    decreases b.len(),
{
    assert(seq![c].drop_last() =~= Seq::<char>::empty());
    assert(seq![c].last() == c);
    assert(escaped(seq![c]) == escaped(Seq::<char>::empty()) + escaped_char(c));
    assert(Seq::<char>::empty() + escaped_char(c) =~= escaped_char(c));
    if b.len() > 0 {
        law_escaping_is_per_character(a, b.drop_last(), c);
        assert((a + b).drop_last() =~= a + b.drop_last());
        assert((a + b).last() == b.last());
        let ea = escaped(a);
        let er = escaped(b.drop_last());
        let t = escaped_char(b.last());
        assert(ea + er + t =~= ea + (er + t));
    } else {
        assert(a + b =~= a);
        assert(escaped(a) + Seq::<char>::empty() =~= escaped(a));
    }
}

/// `s` in double quotes, escaped.
#[verifier::opaque]
pub open spec fn quoted(s: Seq<char>) -> Seq<char> {
    seq!['"'] + escaped(s) + seq!['"']
}

/// `true` or `false`.
#[verifier::opaque]
pub open spec fn bool_text(b: bool) -> Seq<char> {
    if b {
        "true"@
    } else {
        "false"@
    }
}

/// A signed integer: a minus sign before the digits of a negative one.
#[verifier::opaque]
pub open spec fn signed_text(n: int) -> Seq<char> {
    if n < 0 {
        seq!['-'] + decimal((-n) as nat)
    } else {
        decimal(n as nat)
    }
}

/// `None`, or `Some(..)` around the quoted text.
#[verifier::opaque]
pub open spec fn optional_text(o: Option<Seq<char>>) -> Seq<char> {
    match o {
        None => "None"@,
        Some(s) => "Some("@ + quoted(s) + ")"@,
    }
}

/// The rendering of a storage.
#[verifier::opaque]
pub open spec fn storage_text(s: StorageSummary) -> Seq<char> {
    "StorageSummary { id: "@ + decimal(s.id as nat) + ", name: "@ + quoted(s.name@)
        + ", total_bytes: "@ + decimal(s.total_bytes as nat) + ", free_bytes: "@ + decimal(
        s.free_bytes as nat,
    ) + ", writable: "@ + bool_text(s.writable) + " }"@
}

/// The renderings of storages, separated by ", ".
pub open spec fn storages_joined(items: Seq<StorageSummary>) -> Seq<char>
    decreases items.len(),
{
    if items.len() == 0 {
        Seq::empty()
    } else if items.len() == 1 {
        storage_text(items[0])
    } else {
        storages_joined(items.drop_last()) + ", "@ + storage_text(items.last())
    }
}

/// The rendering of a device.
#[verifier::opaque]
pub open spec fn device_text(d: DeviceSummary) -> Seq<char> {
    "DeviceSummary { key: "@ + quoted(d.key@) + ", manufacturer: "@ + quoted(d.manufacturer@)
        + ", model: "@ + quoted(d.model@) + ", serial: "@ + quoted(d.serial@)
        + ", device_version: "@ + quoted(d.device_version@) + ", usb_speed: "@ + optional_text(
        match d.usb_speed {
            Some(s) => Some(s@),
            None => None,
        },
    ) + ", generation: "@ + decimal(d.generation as nat) + ", writable: "@ + bool_text(
        d.writable,
    ) + ", storages: ["@ + storages_joined(d.storages@) + "] }"@
}

/// The renderings of devices, separated by ", ".
pub open spec fn devices_joined(items: Seq<DeviceSummary>) -> Seq<char>
    decreases items.len(),
{
    if items.len() == 0 {
        Seq::empty()
    } else if items.len() == 1 {
        device_text(items[0])
    } else {
        devices_joined(items.drop_last()) + ", "@ + device_text(items.last())
    }
}

/// The rendering of a mount state.
#[verifier::opaque]
pub open spec fn mount_state_text(m: MountState) -> Seq<char> {
    match m {
        MountState::Unmounted => "Unmounted"@,
        MountState::Mounting => "Mounting"@,
        MountState::Mounted { path, port } => "Mounted { path: "@ + quoted(path@) + ", port: "@
            + decimal(port as nat) + " }"@,
        MountState::Error { message } => "Error { message: "@ + quoted(message@) + " }"@,
    }
}

/// The rendering of a snapshot.
#[verifier::opaque]
pub open spec fn snapshot_text(s: ServiceSnapshot) -> Seq<char> {
    "ServiceSnapshot { version: "@ + quoted(s.version@) + ", mount: "@ + mount_state_text(s.mount)
        + ", devices: ["@ + devices_joined(s.devices@) + "], transfer_count: "@ + decimal(
        s.transfer_count as nat,
    ) + ", last_error: "@ + optional_text(
        match s.last_error {
            Some(e) => Some(e@),
            None => None,
        },
    ) + " }"@
}

/// The name of a log level.
#[verifier::opaque]
pub open spec fn level_text(l: LogLevel) -> Seq<char> {
    match l {
        LogLevel::Trace => "Trace"@,
        LogLevel::Debug => "Debug"@,
        LogLevel::Info => "Info"@,
        LogLevel::Warn => "Warn"@,
        LogLevel::Error => "Error"@,
    }
}

/// The rendering of a log record.
#[verifier::opaque]
pub open spec fn record_text(r: LogRecord) -> Seq<char> {
    "LogRecord { id: "@ + decimal(r.id as nat) + ", unix_millis: "@ + signed_text(
        r.unix_millis as int,
    ) + ", level: "@ + level_text(r.level) + ", target: "@ + quoted(r.target@) + ", message: "@
        + quoted(r.message@) + " }"@
}

/// The renderings of log records, separated by ", ".
pub open spec fn records_joined(items: Seq<LogRecord>) -> Seq<char>
    decreases items.len(),
{
    if items.len() == 0 {
        Seq::empty()
    } else if items.len() == 1 {
        record_text(items[0])
    } else {
        records_joined(items.drop_last()) + ", "@ + record_text(items.last())
    }
}

/// The name of a language preference.
#[verifier::opaque]
pub open spec fn language_preference_text(p: LanguagePreference) -> Seq<char> {
    match p {
        LanguagePreference::System => "System"@,
        LanguagePreference::English => "English"@,
        LanguagePreference::SimplifiedChinese => "SimplifiedChinese"@,
    }
}

/// The name of a theme color.
#[verifier::opaque]
pub open spec fn theme_color_text(c: ThemeColor) -> Seq<char> {
    match c {
        ThemeColor::Purple => "Purple"@,
        ThemeColor::Blue => "Blue"@,
        ThemeColor::Teal => "Teal"@,
        ThemeColor::Green => "Green"@,
        ThemeColor::Yellow => "Yellow"@,
        ThemeColor::Orange => "Orange"@,
        ThemeColor::Red => "Red"@,
        ThemeColor::Pink => "Pink"@,
    }
}

/// The name of an appearance preference.
#[verifier::opaque]
pub open spec fn appearance_text(a: AppearancePreference) -> Seq<char> {
    match a {
        AppearancePreference::System => "System"@,
        AppearancePreference::Light => "Light"@,
        AppearancePreference::Dark => "Dark"@,
    }
}

/// The rendering of the settings.
#[verifier::opaque]
pub open spec fn settings_text(s: AppSettings) -> Seq<char> {
    "AppSettings { always_open_in_finder: "@ + bool_text(s.always_open_in_finder)
        + ", language: "@ + language_preference_text(s.language) + ", theme_color: "@
        + theme_color_text(s.theme_color) + ", appearance: "@ + appearance_text(s.appearance)
        + " }"@
}

/// The rendering of a reply. The reply that acknowledges a request is
/// named `Ok`.
#[verifier::opaque]
pub open spec fn response_text(r: ControlResponse) -> Seq<char> {
    match r {
        ControlResponse::Done => "Ok"@,
        ControlResponse::Pong { version } => "Pong { version: "@ + quoted(version@) + " }"@,
        ControlResponse::Snapshot(s) => "Snapshot("@ + snapshot_text(s) + ")"@,
        ControlResponse::Devices(d) => "Devices(["@ + devices_joined(d@) + "])"@,
        ControlResponse::Logs(l) => "Logs(["@ + records_joined(l@) + "])"@,
        ControlResponse::Settings(s) => "Settings("@ + settings_text(s) + ")"@,
        ControlResponse::Error { message } => "Error { message: "@ + quoted(message@) + " }"@,
    }
}

/// A rendered list of storages holds each one once, in order, separated by
/// ", ": one alone is its own rendering, and two runs of them joined are
/// the two renderings joined by ", ".
pub proof fn law_storages_joined_in_order(a: Seq<StorageSummary>, b: Seq<StorageSummary>, x: StorageSummary)
    ensures
        storages_joined(Seq::<StorageSummary>::empty()) == Seq::<char>::empty(),
        storages_joined(seq![x]) == storage_text(x),
        a.len() > 0 && b.len() > 0 ==> storages_joined(a + b) == storages_joined(a) + ", "@ + storages_joined(b),
    decreases b.len(),
{
    assert(seq![x].len() == 1);
    if a.len() > 0 && b.len() > 0 {
        if b.len() == 1 {
            assert((a + b).drop_last() =~= a);
            assert((a + b).last() == b[0]);
            assert(storages_joined(b) == storage_text(b[0]));
        } else {
            law_storages_joined_in_order(a, b.drop_last(), x);
            assert((a + b).drop_last() =~= a + b.drop_last());
            assert((a + b).last() == b.last());
            let ja = storages_joined(a);
            let jr = storages_joined(b.drop_last());
            let t = storage_text(b.last());
            assert(ja + ", "@ + jr + ", "@ + t =~= ja + ", "@ + (jr + ", "@ + t));
        }
    }
}

/// A rendered list of devices holds each one once, in order, separated by
/// ", ": one alone is its own rendering, and two runs of them joined are
/// the two renderings joined by ", ".
pub proof fn law_devices_joined_in_order(a: Seq<DeviceSummary>, b: Seq<DeviceSummary>, x: DeviceSummary)
    ensures
        devices_joined(Seq::<DeviceSummary>::empty()) == Seq::<char>::empty(),
        devices_joined(seq![x]) == device_text(x),
        a.len() > 0 && b.len() > 0 ==> devices_joined(a + b) == devices_joined(a) + ", "@ + devices_joined(b),
    decreases b.len(),
{
    assert(seq![x].len() == 1);
    if a.len() > 0 && b.len() > 0 {
        if b.len() == 1 {
            assert((a + b).drop_last() =~= a);
            assert((a + b).last() == b[0]);
            assert(devices_joined(b) == device_text(b[0]));
        } else {
            law_devices_joined_in_order(a, b.drop_last(), x);
            assert((a + b).drop_last() =~= a + b.drop_last());
            assert((a + b).last() == b.last());
            let ja = devices_joined(a);
            let jr = devices_joined(b.drop_last());
            let t = device_text(b.last());
            assert(ja + ", "@ + jr + ", "@ + t =~= ja + ", "@ + (jr + ", "@ + t));
        }
    }
}

/// A rendered list of log records holds each one once, in order, separated by
/// ", ": one alone is its own rendering, and two runs of them joined are
/// the two renderings joined by ", ".
pub proof fn law_records_joined_in_order(a: Seq<LogRecord>, b: Seq<LogRecord>, x: LogRecord)
    ensures
        records_joined(Seq::<LogRecord>::empty()) == Seq::<char>::empty(),
        records_joined(seq![x]) == record_text(x),
        a.len() > 0 && b.len() > 0 ==> records_joined(a + b) == records_joined(a) + ", "@ + records_joined(b),
    decreases b.len(),
{
    assert(seq![x].len() == 1);
    if a.len() > 0 && b.len() > 0 {
        if b.len() == 1 {
            assert((a + b).drop_last() =~= a);
            assert((a + b).last() == b[0]);
            assert(records_joined(b) == record_text(b[0]));
        } else {
            law_records_joined_in_order(a, b.drop_last(), x);
            assert((a + b).drop_last() =~= a + b.drop_last());
            assert((a + b).last() == b.last());
            let ja = records_joined(a);
            let jr = records_joined(b.drop_last());
            let t = record_text(b.last());
            assert(ja + ", "@ + jr + ", "@ + t =~= ja + ", "@ + (jr + ", "@ + t));
        }
    }
}

/// Appends `s` in quotes, escaped.
fn push_quoted(out: &mut String, s: &str)
    ensures
        final(out)@ == old(out)@ + quoted(s@),
{
    proof {
        reveal(quoted);
    }
    push_char(out, '"');
    let ghost start = out@;
    let chars = crate::text::chars_of(s);
    let mut i: usize = 0;
    while i < chars.len()
        invariant
            chars@ == s@,
            i <= chars@.len(),
            out@ == start + escaped(s@.take(i as int)),
        decreases chars.len() - i,
    {
        let c = chars[i];
        let ghost before = out@;
        if c == '\0' {
            push_char(out, '\\');
            push_char(out, '0');
        } else if c == '\t' {
            push_char(out, '\\');
            push_char(out, 't');
        } else if c == '\r' {
            push_char(out, '\\');
            push_char(out, 'r');
        } else if c == '\n' {
            push_char(out, '\\');
            push_char(out, 'n');
        } else if c == '\\' {
            push_char(out, '\\');
            push_char(out, '\\');
        } else if c == '"' {
            push_char(out, '\\');
            push_char(out, '"');
        } else if c < ' ' || c == '\u{7f}' {
            push_char(out, '\\');
            push_char(out, 'u');
            push_char(out, '{');
            let digits = hex_string(c as u32 as u64);
            out.append(digits.as_str());
            push_char(out, '}');
        } else {
            push_char(out, c);
        }
        proof {
            assert(out@ =~= before + escaped_char(c));
            assert(s@.take(i + 1).drop_last() =~= s@.take(i as int));
        }
        i = i + 1;
    }
    proof {
        assert(s@.take(s@.len() as int) =~= s@);
    }
    push_char(out, '"');
    proof {
        assert(out@ =~= old(out)@ + quoted(s@));
    }
}

/// Appends `true` or `false`.
fn push_bool(out: &mut String, b: bool)
    ensures
        final(out)@ == old(out)@ + bool_text(b),
{
    proof {
        reveal(bool_text);
    }
    if b {
        out.append("true");
    } else {
        out.append("false");
    }
}

/// Appends `None` or `Some(..)`.
fn push_optional(out: &mut String, o: &Option<String>)
    ensures
        final(out)@ == old(out)@ + optional_text(
            match o {
                Some(s) => Some(s@),
                None => None,
            },
        ),
{
    proof {
        reveal(optional_text);
    }
    match o {
        None => out.append("None"),
        Some(s) => {
            out.append("Some(");
            push_quoted(out, s.as_str());
            out.append(")");
        },
    }
}

/// Appends a number.
fn push_number(out: &mut String, n: u64)
    ensures
        final(out)@ == old(out)@ + decimal(n as nat),
{
    let digits = decimal_string(n);
    out.append(digits.as_str());
}

fn push_storage(out: &mut String, s: &StorageSummary)
    ensures
        final(out)@ == old(out)@ + storage_text(*s),
{
    proof {
        reveal(storage_text);
    }
    out.append("StorageSummary { id: ");
    push_number(out, s.id);
    out.append(", name: ");
    push_quoted(out, s.name.as_str());
    out.append(", total_bytes: ");
    push_number(out, s.total_bytes);
    out.append(", free_bytes: ");
    push_number(out, s.free_bytes);
    out.append(", writable: ");
    push_bool(out, s.writable);
    out.append(" }");
}

fn push_storages(out: &mut String, items: &Vec<StorageSummary>)
    ensures
        final(out)@ == old(out)@ + storages_joined(items@),
{
    let ghost start = out@;
    let mut i: usize = 0;
    while i < items.len()
        invariant
            i <= items@.len(),
            out@ == start + storages_joined(items@.take(i as int)),
        decreases items.len() - i,
    {
        let ghost before = out@;
        if i > 0 {
            out.append(", ");
        }
        push_storage(out, &items[i]);
        proof {
            let t = items@.take(i + 1);
            assert(t.drop_last() =~= items@.take(i as int));
            if i == 0 {
                assert(storages_joined(items@.take(0)) =~= Seq::<char>::empty());
                assert(out@ =~= start + storages_joined(t));
            } else {
                assert(out@ =~= start + storages_joined(t));
            }
        }
        i = i + 1;
    }
    proof {
        assert(items@.take(items@.len() as int) =~= items@);
    }
}

fn push_device(out: &mut String, d: &DeviceSummary)
    ensures
        final(out)@ == old(out)@ + device_text(*d),
{
    proof {
        reveal(device_text);
    }
    out.append("DeviceSummary { key: ");
    push_quoted(out, d.key.as_str());
    out.append(", manufacturer: ");
    push_quoted(out, d.manufacturer.as_str());
    out.append(", model: ");
    push_quoted(out, d.model.as_str());
    out.append(", serial: ");
    push_quoted(out, d.serial.as_str());
    out.append(", device_version: ");
    push_quoted(out, d.device_version.as_str());
    out.append(", usb_speed: ");
    push_optional(out, &d.usb_speed);
    out.append(", generation: ");
    push_number(out, d.generation);
    out.append(", writable: ");
    push_bool(out, d.writable);
    out.append(", storages: [");
    push_storages(out, &d.storages);
    out.append("] }");
}

fn push_devices(out: &mut String, items: &Vec<DeviceSummary>)
    ensures
        final(out)@ == old(out)@ + devices_joined(items@),
{
    let ghost start = out@;
    let mut i: usize = 0;
    while i < items.len()
        invariant
            i <= items@.len(),
            out@ == start + devices_joined(items@.take(i as int)),
        decreases items.len() - i,
    {
        if i > 0 {
            out.append(", ");
        }
        push_device(out, &items[i]);
        proof {
            let t = items@.take(i + 1);
            assert(t.drop_last() =~= items@.take(i as int));
            if i == 0 {
                assert(devices_joined(items@.take(0)) =~= Seq::<char>::empty());
            }
            assert(out@ =~= start + devices_joined(t));
        }
        i = i + 1;
    }
    proof {
        assert(items@.take(items@.len() as int) =~= items@);
    }
}

fn push_mount_state(out: &mut String, m: &MountState)
    ensures
        final(out)@ == old(out)@ + mount_state_text(*m),
{
    proof {
        reveal(mount_state_text);
    }
    match m {
        MountState::Unmounted => out.append("Unmounted"),
        MountState::Mounting => out.append("Mounting"),
        MountState::Mounted { path, port } => {
            out.append("Mounted { path: ");
            push_quoted(out, path.as_str());
            out.append(", port: ");
            push_number(out, *port as u64);
            out.append(" }");
        },
        MountState::Error { message } => {
            out.append("Error { message: ");
            push_quoted(out, message.as_str());
            out.append(" }");
        },
    }
}

fn push_snapshot(out: &mut String, s: &ServiceSnapshot)
    ensures
        final(out)@ == old(out)@ + snapshot_text(*s),
{
    proof {
        reveal(snapshot_text);
    }
    out.append("ServiceSnapshot { version: ");
    push_quoted(out, s.version.as_str());
    out.append(", mount: ");
    push_mount_state(out, &s.mount);
    out.append(", devices: [");
    push_devices(out, &s.devices);
    out.append("], transfer_count: ");
    push_number(out, s.transfer_count as u64);
    out.append(", last_error: ");
    push_optional(out, &s.last_error);
    out.append(" }");
}

fn push_level(out: &mut String, l: LogLevel)
    ensures
        final(out)@ == old(out)@ + level_text(l),
{
    proof {
        reveal(level_text);
    }
    match l {
        LogLevel::Trace => out.append("Trace"),
        LogLevel::Debug => out.append("Debug"),
        LogLevel::Info => out.append("Info"),
        LogLevel::Warn => out.append("Warn"),
        LogLevel::Error => out.append("Error"),
    }
}

fn push_signed(out: &mut String, n: i128)
    ensures
        final(out)@ == old(out)@ + signed_text(n as int),
{
    proof {
        reveal(signed_text);
    }
    if n < 0 {
        push_char(out, '-');
        let magnitude: u128 = if n == i128::MIN {
            170141183460469231731687303715884105728u128
        } else {
            (-n) as u128
        };
        let digits = decimal_string_u128(magnitude);
        out.append(digits.as_str());
    } else {
        let digits = decimal_string_u128(n as u128);
        out.append(digits.as_str());
    }
}

fn push_record(out: &mut String, r: &LogRecord)
    ensures
        final(out)@ == old(out)@ + record_text(*r),
{
    proof {
        reveal(record_text);
    }
    out.append("LogRecord { id: ");
    push_number(out, r.id);
    out.append(", unix_millis: ");
    push_signed(out, r.unix_millis);
    out.append(", level: ");
    push_level(out, r.level);
    out.append(", target: ");
    push_quoted(out, r.target.as_str());
    out.append(", message: ");
    push_quoted(out, r.message.as_str());
    out.append(" }");
}

fn push_records(out: &mut String, items: &Vec<LogRecord>)
    ensures
        final(out)@ == old(out)@ + records_joined(items@),
{
    let ghost start = out@;
    let mut i: usize = 0;
    while i < items.len()
        invariant
            i <= items@.len(),
            out@ == start + records_joined(items@.take(i as int)),
        decreases items.len() - i,
    {
        if i > 0 {
            out.append(", ");
        }
        push_record(out, &items[i]);
        proof {
            let t = items@.take(i + 1);
            assert(t.drop_last() =~= items@.take(i as int));
            if i == 0 {
                assert(records_joined(items@.take(0)) =~= Seq::<char>::empty());
            }
            assert(out@ =~= start + records_joined(t));
        }
        i = i + 1;
    }
    proof {
        assert(items@.take(items@.len() as int) =~= items@);
    }
}

fn push_language(out: &mut String, p: LanguagePreference)
    ensures
        final(out)@ == old(out)@ + language_preference_text(p),
{
    proof {
        reveal(language_preference_text);
    }
    match p {
        LanguagePreference::System => out.append("System"),
        LanguagePreference::English => out.append("English"),
        LanguagePreference::SimplifiedChinese => out.append("SimplifiedChinese"),
    }
}

fn push_theme(out: &mut String, p: ThemeColor)
    ensures
        final(out)@ == old(out)@ + theme_color_text(p),
{
    proof {
        reveal(theme_color_text);
    }
    match p {
        ThemeColor::Purple => out.append("Purple"),
        ThemeColor::Blue => out.append("Blue"),
        ThemeColor::Teal => out.append("Teal"),
        ThemeColor::Green => out.append("Green"),
        ThemeColor::Yellow => out.append("Yellow"),
        ThemeColor::Orange => out.append("Orange"),
        ThemeColor::Red => out.append("Red"),
        ThemeColor::Pink => out.append("Pink"),
    }
}

fn push_appearance(out: &mut String, p: AppearancePreference)
    ensures
        final(out)@ == old(out)@ + appearance_text(p),
{
    proof {
        reveal(appearance_text);
    }
    match p {
        AppearancePreference::System => out.append("System"),
        AppearancePreference::Light => out.append("Light"),
        AppearancePreference::Dark => out.append("Dark"),
    }
}

fn push_settings(out: &mut String, s: &AppSettings)
    ensures
        final(out)@ == old(out)@ + settings_text(*s),
{
    proof {
        reveal(settings_text);
    }
    out.append("AppSettings { always_open_in_finder: ");
    push_bool(out, s.always_open_in_finder);
    out.append(", language: ");
    push_language(out, s.language);
    out.append(", theme_color: ");
    push_theme(out, s.theme_color);
    out.append(", appearance: ");
    push_appearance(out, s.appearance);
    out.append(" }");
}

impl ControlResponse {
    /// The reply as messages about a reply of the wrong kind show it.
    pub fn describe(&self) -> (r: String)
        ensures
            r@ == response_text(*self),
    {
        proof {
            reveal(response_text);
        }
        let mut out = String::new();
        match self {
            ControlResponse::Done => out.append("Ok"),
            ControlResponse::Pong { version } => {
                out.append("Pong { version: ");
                push_quoted(&mut out, version.as_str());
                out.append(" }");
            },
            ControlResponse::Snapshot(s) => {
                out.append("Snapshot(");
                push_snapshot(&mut out, s);
                out.append(")");
            },
            ControlResponse::Devices(d) => {
                out.append("Devices([");
                push_devices(&mut out, d);
                out.append("])");
            },
            ControlResponse::Logs(l) => {
                out.append("Logs([");
                push_records(&mut out, l);
                out.append("])");
            },
            ControlResponse::Settings(s) => {
                out.append("Settings(");
                push_settings(&mut out, s);
                out.append(")");
            },
            ControlResponse::Error { message } => {
                out.append("Error { message: ");
                push_quoted(&mut out, message.as_str());
                out.append(" }");
            },
        }
        proof {
            assert(out@ =~= response_text(*self));
        }
        out
    }
}

} // verus!
