//! Text renderings of the daemon's state for the command line.
use crate::format::{bytes_text, format_bytes, format_mount_state, mount_text};
use crate::i18n::Language;
use crate::model::{DeviceSummary, LogLevel, LogRecord, ServiceSnapshot, StorageSummary};
use crate::text::{decimal, decimal_string, decimal_string_u128, push_char};
use vstd::prelude::*;

verus! {

/// "yes" or "no" in a language.
pub open spec fn yes_no(language: Language, value: bool) -> Seq<char> {
    if value {
        language.table().yes@
    } else {
        language.table().no@
    }
}

/// "yes" or "no" in a language.
pub fn localized_bool(language: Language, value: bool) -> (r: &'static str)
    ensures
        r@ == yes_no(language, value),
{
    let strings = language.strings();
    if value {
        strings.yes
    } else {
        strings.no
    }
}

/// The status report: version, mount state, number of devices and the
/// last error, one per line.
pub open spec fn status_report(language: Language, snapshot: ServiceSnapshot) -> Seq<char> {
    let strings = language.table();
    let head = "MTPDrive "@ + snapshot.version@ + "\n"@ + strings.mount_label@ + ": "@ + mount_text(
        language,
        snapshot.mount,
    ) + "\n"@ + strings.devices_label@ + ": "@ + decimal(snapshot.devices@.len()) + "\n"@;
    match snapshot.last_error {
        Some(error) => head + strings.last_error_label@ + ": "@ + error@ + "\n"@,
        None => head,
    }
}

/// The status report.
pub fn status_text(language: Language, snapshot: &ServiceSnapshot) -> (r: String)
    ensures
        r@ == status_report(language, *snapshot),
{
    let strings = language.strings();
    let mut s = String::from_str("MTPDrive ");
    s.append(snapshot.version.as_str());
    s.append("\n");
    s.append(strings.mount_label);
    s.append(": ");
    let mount = format_mount_state(language, &snapshot.mount);
    s.append(mount.as_str());
    s.append("\n");
    s.append(strings.devices_label);
    s.append(": ");
    let count = decimal_string(snapshot.devices.len() as u64);
    s.append(count.as_str());
    s.append("\n");
    match &snapshot.last_error {
        Some(error) => {
            s.append(strings.last_error_label);
            s.append(": ");
            s.append(error.as_str());
            s.append("\n");
        },
        None => {},
    }
    s
}

/// The line of a storage: indented name, free and total space, writability.
pub open spec fn storage_line(language: Language, storage: StorageSummary) -> Seq<char> {
    let strings = language.table();
    "  "@ + storage.name@ + "  "@ + strings.free_label@ + "="@ + bytes_text(
        storage.free_bytes as nat,
    ) + "  "@ + strings.total_label@ + "="@ + bytes_text(storage.total_bytes as nat) + "  "@
        + strings.writable_label@ + "="@ + yes_no(language, storage.writable) + "\n"@
}

/// The lines of storages.
pub open spec fn storage_lines(language: Language, storages: Seq<StorageSummary>) -> Seq<char>
    decreases storages.len(),
{
    if storages.len() == 0 {
        Seq::empty()
    } else {
        storage_lines(language, storages.drop_last()) + storage_line(language, storages.last())
    }
}

/// The lines of a device: maker, model, serial and writability, then its
/// storages.
pub open spec fn device_lines(language: Language, device: DeviceSummary) -> Seq<char> {
    let strings = language.table();
    device.manufacturer@ + " "@ + device.model@ + "  "@ + strings.serial_label@ + "="@
        + device.serial@ + "  "@ + strings.writable_label@ + "="@ + yes_no(language, device.writable)
        + "\n"@ + storage_lines(language, device.storages@)
}

/// The lines of devices.
pub open spec fn devices_lines(language: Language, devices: Seq<DeviceSummary>) -> Seq<char>
    decreases devices.len(),
{
    if devices.len() == 0 {
        Seq::empty()
    } else {
        devices_lines(language, devices.drop_last()) + device_lines(language, devices.last())
    }
}

/// A device's report holds one line per storage, in order: nothing for no
/// storages, and the lines of two runs of storages follow each other.
pub proof fn law_one_line_per_storage(
    language: Language,
    a: Seq<StorageSummary>,
    b: Seq<StorageSummary>,
    x: StorageSummary,
)
    ensures
        storage_lines(language, Seq::<StorageSummary>::empty()) == Seq::<char>::empty(),
        storage_lines(language, seq![x]) == storage_line(language, x),
        storage_lines(language, a.push(x)) == storage_lines(language, a) + storage_line(language, x),
        storage_lines(language, a + b) == storage_lines(language, a) + storage_lines(language, b),
    decreases b.len(),
{
    assert(a.push(x).drop_last() =~= a);
    assert(seq![x].drop_last() =~= Seq::<StorageSummary>::empty());
    assert(seq![x].last() == x);
    assert(storage_lines(language, seq![x]) == storage_lines(language, Seq::<StorageSummary>::empty())
        + storage_line(language, x));
    assert(Seq::<char>::empty() + storage_line(language, x) =~= storage_line(language, x));
    if b.len() > 0 {
        law_one_line_per_storage(language, a, b.drop_last(), x);
        assert((a + b).drop_last() =~= a + b.drop_last());
        assert((a + b).last() == b.last());
        assert(storage_lines(language, a + b) =~= storage_lines(language, a) + storage_lines(
            language,
            b,
        ));
    } else {
        assert(a + b =~= a);
        assert(storage_lines(language, a + b) =~= storage_lines(language, a) + storage_lines(
            language,
            b,
        ));
    }
}

proof fn lemma_devices_lines_push(language: Language, a: Seq<DeviceSummary>, d: DeviceSummary)
    ensures
        devices_lines(language, a.push(d)) == devices_lines(language, a) + device_lines(language, d),
{
    let s = a.push(d);
    assert(s.drop_last() =~= a);
    assert(s.last() == d);
    assert(s.len() > 0);
}

/// The device report holds the lines of every device, in order: nothing
/// for no devices, and the lines of two runs of devices follow each other.
#[verifier::spinoff_prover]
pub proof fn law_one_section_per_device(
    language: Language,
    a: Seq<DeviceSummary>,
    b: Seq<DeviceSummary>,
    d: DeviceSummary,
)
    ensures
        devices_lines(language, Seq::<DeviceSummary>::empty()) == Seq::<char>::empty(),
        devices_lines(language, a.push(d)) == devices_lines(language, a) + device_lines(language, d),
        devices_lines(language, a + b) == devices_lines(language, a) + devices_lines(language, b),
    decreases b.len(),
{
    lemma_devices_lines_push(language, a, d);
    if b.len() > 0 {
        let last = b.last();
        let rest = b.drop_last();
        law_one_section_per_device(language, a, rest, d);
        assert(a + b =~= (a + rest).push(last));
        assert(b =~= rest.push(last));
        lemma_devices_lines_push(language, a + rest, last);
        lemma_devices_lines_push(language, rest, last);
        let la = devices_lines(language, a);
        let lr = devices_lines(language, rest);
        let ll = device_lines(language, last);
        assert(la + lr + ll =~= la + (lr + ll));
    } else {
        assert(a + b =~= a);
        assert(devices_lines(language, b) == Seq::<char>::empty());
        assert(devices_lines(language, a) + Seq::<char>::empty() =~= devices_lines(language, a));
    }
}

/// The device report: a line for each device and each of its storages, or
/// a note that none is connected.
pub open spec fn devices_report(language: Language, devices: Seq<DeviceSummary>) -> Seq<char> {
    if devices.len() == 0 {
        language.table().no_mtp_devices@ + "\n"@
    } else {
        devices_lines(language, devices)
    }
}

fn storage_text(language: Language, storage: &StorageSummary) -> (r: String)
    ensures
        r@ == storage_line(language, *storage),
{
    let strings = language.strings();
    let mut s = String::from_str("  ");
    s.append(storage.name.as_str());
    s.append("  ");
    s.append(strings.free_label);
    s.append("=");
    let free = format_bytes(storage.free_bytes);
    s.append(free.as_str());
    s.append("  ");
    s.append(strings.total_label);
    s.append("=");
    let total = format_bytes(storage.total_bytes);
    s.append(total.as_str());
    s.append("  ");
    s.append(strings.writable_label);
    s.append("=");
    s.append(localized_bool(language, storage.writable));
    s.append("\n");
    s
}

fn device_text(language: Language, device: &DeviceSummary) -> (r: String)
    ensures
        r@ == device_lines(language, *device),
{
    let strings = language.strings();
    let mut s = String::from_str(device.manufacturer.as_str());
    s.append(" ");
    s.append(device.model.as_str());
    s.append("  ");
    s.append(strings.serial_label);
    s.append("=");
    s.append(device.serial.as_str());
    s.append("  ");
    s.append(strings.writable_label);
    s.append("=");
    s.append(localized_bool(language, device.writable));
    s.append("\n");
    let ghost head = s@;
    let mut i: usize = 0;
    proof {
        assert(device.storages@.subrange(0, 0) =~= Seq::<StorageSummary>::empty());
    }
    while i < device.storages.len()
        invariant
            i <= device.storages@.len(),
            s@ == head + storage_lines(language, device.storages@.subrange(0, i as int)),
        decreases device.storages.len() - i,
    {
        let line = storage_text(language, &device.storages[i]);
        proof {
            let p = device.storages@.subrange(0, i + 1);
            assert(p.drop_last() =~= device.storages@.subrange(0, i as int));
            assert(p.last() == device.storages@[i as int]);
        }
        s.append(line.as_str());
        i = i + 1;
    }
    proof {
        assert(device.storages@.subrange(0, device.storages@.len() as int) =~= device.storages@);
    }
    s
}

/// The device report.
pub fn devices_text(language: Language, devices: &Vec<DeviceSummary>) -> (r: String)
    ensures
        r@ == devices_report(language, devices@),
{
    if devices.len() == 0 {
        let mut s = String::from_str(language.strings().no_mtp_devices);
        s.append("\n");
        return s;
    }
    let mut s = String::new();
    let mut i: usize = 0;
    proof {
        assert(devices@.subrange(0, 0) =~= Seq::<DeviceSummary>::empty());
    }
    while i < devices.len()
        invariant
            i <= devices@.len(),
            s@ == devices_lines(language, devices@.subrange(0, i as int)),
        decreases devices.len() - i,
    {
        let text = device_text(language, &devices[i]);
        proof {
            let p = devices@.subrange(0, i + 1);
            assert(p.drop_last() =~= devices@.subrange(0, i as int));
            assert(p.last() == devices@[i as int]);
        }
        s.append(text.as_str());
        i = i + 1;
    }
    proof {
        assert(devices@.subrange(0, devices@.len() as int) =~= devices@);
    }
    s
}

/// The name of a log level as it is printed.
pub open spec fn level_name(level: LogLevel) -> Seq<char> {
    match level {
        LogLevel::Trace => "Trace"@,
        LogLevel::Debug => "Debug"@,
        LogLevel::Info => "Info"@,
        LogLevel::Warn => "Warn"@,
        LogLevel::Error => "Error"@,
    }
}

/// The name of a log level as it is printed.
pub fn level_text(level: LogLevel) -> (r: &'static str)
    ensures
        r@ == level_name(level),
{
    proof {
        reveal_strlit("Trace");
        reveal_strlit("Debug");
        reveal_strlit("Info");
        reveal_strlit("Warn");
        reveal_strlit("Error");
    }
    match level {
        LogLevel::Trace => "Trace",
        LogLevel::Debug => "Debug",
        LogLevel::Info => "Info",
        LogLevel::Warn => "Warn",
        LogLevel::Error => "Error",
    }
}

/// A signed number in decimal.
pub open spec fn signed_decimal(n: int) -> Seq<char> {
    if n < 0 {
        "-"@ + decimal((-n) as nat)
    } else {
        decimal(n as nat)
    }
}

/// `s` followed by spaces up to `width` characters.
pub open spec fn left_aligned(s: Seq<char>, width: nat) -> Seq<char> {
    if s.len() < width {
        s + Seq::new((width - s.len()) as nat, |i: int| ' ')
    } else {
        s
    }
}

/// The text line of a log record: time, level, target in ten columns, and
/// message.
pub open spec fn log_line_text(record: LogRecord) -> Seq<char> {
    signed_decimal(record.unix_millis as int) + " "@ + level_name(record.level) + " "@
        + left_aligned(record.target@, 10) + " "@ + record.message@ + "\n"@
}

/// The text line of a log record.
pub fn log_line(record: &LogRecord) -> (r: String)
    ensures
        r@ == log_line_text(*record),
{
    let mut s = String::new();
    let millis = record.unix_millis;
    if millis < 0 {
        s.append("-");
        let magnitude: u128 = if millis == i128::MIN {
            0x8000_0000_0000_0000_0000_0000_0000_0000
        } else {
            (-millis) as u128
        };
        let digits = decimal_string_u128(magnitude);
        s.append(digits.as_str());
    } else {
        let digits = decimal_string_u128(millis as u128);
        s.append(digits.as_str());
    }
    s.append(" ");
    s.append(level_text(record.level));
    s.append(" ");
    s.append(record.target.as_str());
    let n = record.target.as_str().unicode_len();
    if n < 10 {
        let mut k: usize = n;
        let ghost base = s@;
        while k < 10
            invariant
                n <= k <= 10,
                s@ == base + Seq::new((k - n) as nat, |i: int| ' '),
            decreases 10 - k,
        {
            push_char(&mut s, ' ');
            k = k + 1;
            proof {
                assert(s@ =~= base + Seq::new((k - n) as nat, |i: int| ' '));
            }
        }
    }
    s.append(" ");
    s.append(record.message.as_str());
    s.append("\n");
    s
}

/// The largest of `after` and the ids of `records`: where a log reader
/// continues.
pub open spec fn log_cursor(after: u64, records: Seq<LogRecord>) -> u64
    decreases records.len(),
{
    if records.len() == 0 {
        after
    } else {
        let before = log_cursor(after, records.drop_last());
        if records.last().id > before {
            records.last().id
        } else {
            before
        }
    }
}

/// A log reader continues after the newest record it has seen: the cursor
/// is at least where it was and at least every printed record's id, and it
/// is where it was or one of those ids.
pub proof fn law_log_cursor_is_the_newest_id(after: u64, records: Seq<LogRecord>)
    ensures
        log_cursor(after, records) >= after,
        forall|k: int| 0 <= k < records.len() ==> log_cursor(after, records) >= #[trigger] records[k].id,
        log_cursor(after, records) == after || exists|k: int|
            0 <= k < records.len() && log_cursor(after, records) == #[trigger] records[k].id,
    decreases records.len(),
{
    if records.len() > 0 {
        let rest = records.drop_last();
        law_log_cursor_is_the_newest_id(after, rest);
        assert forall|k: int| 0 <= k < records.len() implies log_cursor(after, records)
            >= #[trigger] records[k].id by {
            if k < records.len() - 1 {
                assert(records[k] == rest[k]);
            }
        }
        if log_cursor(after, records) != after {
            if log_cursor(after, records) == records.last().id {
                assert(log_cursor(after, records) == records[records.len() - 1].id);
            } else {
                let k = choose|k: int| 0 <= k < rest.len() && log_cursor(after, rest) == rest[k].id;
                assert(rest[k] == records[k]);
            }
        }
    }
}

/// Where a log reader continues after printing `records`.
pub fn next_log_cursor(after: u64, records: &Vec<LogRecord>) -> (r: u64)
    ensures
        r == log_cursor(after, records@),
{
    let mut cursor = after;
    let mut i: usize = 0;
    while i < records.len()
        invariant
            i <= records@.len(),
            cursor == log_cursor(after, records@.subrange(0, i as int)),
        decreases records.len() - i,
    {
        proof {
            assert(records@.subrange(0, i + 1).drop_last() =~= records@.subrange(0, i as int));
        }
        if records[i].id > cursor {
            cursor = records[i].id;
        }
        i = i + 1;
    }
    proof {
        assert(records@.subrange(0, records@.len() as int) =~= records@);
    }
    cursor
}

} // verus!
