//! The decisions of the device layer: names and keys of devices, how MTP
//! parents are encoded, how device events change the cache, and which
//! processes hold Android devices away from MTPDrive.
use crate::cache::{DeviceCache, ObjectEntry, MTP_ALL_HANDLE, MTP_ROOT_HANDLE};
use crate::error::{error_text, Error};
use crate::i18n::Language;
use crate::listing::{entries_of, lemma_name_order, name_lt, sort_by_name, sorted_by_name};
use crate::model::{DeviceSummary, StorageSummary};
use crate::text::{
    before_char, before_class, chars_of, hex, hex_string, in_class, is_blank, is_whitespace,
    lemma_before_char_prefix, lemma_before_class_len, lemma_before_class_prefix, pad_with_zeros,
    str_equals, trim, zero_padded, CharClass,
};
use vstd::prelude::*;

verus! {

/// The first of `primary` and `secondary` that is not blank, or `fallback`.
pub open spec fn first_nonblank(
    primary: Seq<char>,
    secondary: Option<Seq<char>>,
    fallback: Seq<char>,
) -> Seq<char> {
    if trim(primary).len() > 0 {
        primary
    } else if secondary matches Some(s) && trim(s).len() > 0 {
        secondary->0
    } else {
        fallback
    }
}

/// The first of `primary` and `secondary` that is not blank, or `fallback`.
pub fn nonempty(primary: &str, secondary: Option<&str>, fallback: &str) -> (r: String)
    ensures
        r@ == first_nonblank(
            primary@,
            match secondary {
                Some(s) => Some(s@),
                None => None,
            },
            fallback@,
        ),
{
    if !is_blank(primary) {
        return String::from_str(primary);
    }
    match secondary {
        Some(value) => {
            if !is_blank(value) {
                return String::from_str(value);
            }
        },
        None => {},
    }
    String::from_str(fallback)
}

/// The name of a storage: its description, or "Storage" and its id in
/// eight-digit hexadecimal when the description is blank.
pub open spec fn storage_label(description: Seq<char>, id: u64, language: Language) -> Seq<char> {
    if trim(description).len() == 0 {
        language.table().storage@ + " "@ + zero_padded(hex(id as nat), 8)
    } else {
        description
    }
}

/// The name of a storage.
pub fn storage_name(description: &str, id: u64, language: Language) -> (r: String)
    ensures
        r@ == storage_label(description@, id, language),
{
    if is_blank(description) {
        let mut s = String::from_str(language.strings().storage);
        s.append(" ");
        let digits = hex_string(id);
        let padded = pad_with_zeros(digits.as_str(), 8);
        s.append(padded.as_str());
        s
    } else {
        String::from_str(description)
    }
}

/// The summary of a storage the device reports: its id, its name (see
/// `storage_label`), capacity, free space and whether it is writable.
pub fn storage_summary(
    id: u64,
    description: &str,
    total_bytes: u64,
    free_bytes: u64,
    writable: bool,
    language: Language,
) -> (r: StorageSummary)
    ensures
        r.id == id,
        r.name@ == storage_label(description@, id, language),
        r.total_bytes == total_bytes,
        r.free_bytes == free_bytes,
        r.writable == writable,
{
    StorageSummary {
        id,
        name: storage_name(description, id, language),
        total_bytes,
        free_bytes,
        writable,
    }
}

/// The serial shown for a device that reports none: its place on the bus.
pub open spec fn location_serial_text(location_id: u64) -> Seq<char> {
    "location-"@ + hex(location_id as nat)
}

/// The serial shown for a device that reports none.
pub fn location_serial(location_id: u64) -> (r: String)
    ensures
        r@ == location_serial_text(location_id),
{
    let mut s = String::from_str("location-");
    let digits = hex_string(location_id);
    s.append(digits.as_str());
    s
}

/// What a device reports of itself once a session is open.
#[derive(Debug, Clone, PartialEq, Eq)]
pub struct ReportedInfo {
    pub manufacturer: String,
    pub model: String,
    pub serial_number: String,
    pub device_version: String,
}

/// What the bus tells of a device before it is opened, besides its
/// identity.
#[derive(Debug, Clone, PartialEq, Eq)]
pub struct BusLabels {
    pub manufacturer: Option<String>,
    pub product: Option<String>,
    /// The USB speed, as text.
    pub speed: Option<String>,
}

/// The view of an optional text.
pub open spec fn opt_view(s: Option<String>) -> Option<Seq<char>> {
    match s {
        Some(t) => Some(t@),
        None => None,
    }
}

/// The summary of a device just opened: its names from what it reports,
/// else from the bus, else the localized fallbacks; writable when a
/// storage is writable and the device accepts uploads.
pub fn device_summary(
    key: String,
    identity: &DeviceIdentity,
    bus: &BusLabels,
    info: &ReportedInfo,
    generation: u64,
    storages: Vec<StorageSummary>,
    supports_upload: bool,
    language: Language,
) -> (r: DeviceSummary)
    ensures
        r.key == key,
        r.manufacturer@ == first_nonblank(
            info.manufacturer@,
            opt_view(bus.manufacturer),
            language.table().unknown@,
        ),
        r.model@ == first_nonblank(info.model@, opt_view(bus.product), language.table().mtp_device@),
        r.serial@ == first_nonblank(
            info.serial_number@,
            opt_view(identity.serial_number),
            location_serial_text(identity.location_id),
        ),
        r.device_version == info.device_version,
        r.usb_speed == bus.speed,
        r.generation == generation,
        r.writable == ((exists|i: int| 0 <= i < storages@.len() && storages@[i].writable)
            && supports_upload),
        r.storages == storages,
{
    let strings = language.strings();
    let manufacturer = nonempty(
        info.manufacturer.as_str(),
        match &bus.manufacturer {
            Some(m) => Some(m.as_str()),
            None => None,
        },
        strings.unknown,
    );
    let model = nonempty(
        info.model.as_str(),
        match &bus.product {
            Some(p) => Some(p.as_str()),
            None => None,
        },
        strings.mtp_device,
    );
    let fallback = location_serial(identity.location_id);
    let serial = nonempty(
        info.serial_number.as_str(),
        match &identity.serial_number {
            Some(s) => Some(s.as_str()),
            None => None,
        },
        fallback.as_str(),
    );
    let writable = device_writable(&storages, supports_upload);
    DeviceSummary {
        key,
        manufacturer,
        model,
        serial,
        device_version: info.device_version.clone(),
        usb_speed: match &bus.speed {
            Some(s) => Some(s.clone()),
            None => None,
        },
        generation,
        writable,
        storages,
    }
}

/// The parent MTP reports for objects at the root of a storage, in either
/// of its encodings (0, or the "all objects" handle Android uses), becomes 0.
pub fn normalize_parent(parent: u64) -> (r: u64)
    ensures
        r == (if parent == MTP_ROOT_HANDLE || parent == MTP_ALL_HANDLE {
            MTP_ROOT_HANDLE
        } else {
            parent
        }),
{
    if parent == MTP_ROOT_HANDLE || parent == MTP_ALL_HANDLE {
        MTP_ROOT_HANDLE
    } else {
        parent
    }
}

/// The parent handle passed to mutating MTP operations: the storage root
/// is written as the "all objects" handle, which Android expects.
pub fn mtp_write_parent(parent: Option<u64>) -> (r: Option<u64>)
    ensures
        r == Some(
            match parent {
                Some(p) => p,
                None => MTP_ALL_HANDLE,
            },
        ),
{
    match parent {
        Some(p) => Some(p),
        None => Some(MTP_ALL_HANDLE),
    }
}

/// The change timestamp after a change at `now`: never earlier than `now`,
/// and always later than the previous one (unless that is the largest).
pub open spec fn next_change(previous: u64, now: u64) -> u64 {
    let bumped = if previous == u64::MAX {
        u64::MAX
    } else {
        (previous + 1) as u64
    };
    if now > bumped {
        now
    } else {
        bumped
    }
}

/// The change timestamp after a change at `now`.
pub fn next_change_timestamp(previous: u64, now: u64) -> (r: u64)
    ensures
        r == next_change(previous, now),
{
    let bumped = previous.saturating_add(1);
    if now > bumped {
        now
    } else {
        bumped
    }
}

/// Change timestamps only move forward: the next one is never earlier than
/// the change itself and always later than the previous one (until the
/// largest value is reached).
pub proof fn law_change_timestamps_increase(previous: u64, now: u64)
    requires
        previous < u64::MAX,
    ensures
        next_change(previous, now) > previous,
        next_change(previous, now) >= now,
{
}

/// Milliseconds since the epoch as 64 bits, saturated.
pub fn clamp_millis(millis: u128) -> (r: u64)
    ensures
        r == (if millis > u64::MAX {
            u64::MAX
        } else {
            millis as u64
        }),
{
    if millis > u64::MAX as u128 {
        u64::MAX
    } else {
        millis as u64
    }
}

/// What identifies an MTP device on the USB bus.
#[derive(Debug, Clone, PartialEq, Eq)]
pub struct DeviceIdentity {
    pub vendor_id: u16,
    pub product_id: u16,
    pub location_id: u64,
    pub serial_number: Option<String>,
}

/// `vvvv:pppp`: the vendor and product ids in four-digit hexadecimal.
pub open spec fn vendor_product_text(vendor_id: u16, product_id: u16) -> Seq<char> {
    zero_padded(hex(vendor_id as nat), 4) + ":"@ + zero_padded(hex(product_id as nat), 4)
}

/// `vvvv:pppp@location`: the device's place on the bus.
pub open spec fn physical_text(identity: DeviceIdentity) -> Seq<char> {
    vendor_product_text(identity.vendor_id, identity.product_id) + "@"@ + hex(
        identity.location_id as nat,
    )
}

/// The key of a device: vendor, product and serial number, or its place on
/// the bus when it reports no serial number.
pub open spec fn device_key_text(identity: DeviceIdentity) -> Seq<char> {
    match identity.serial_number {
        Some(serial) => vendor_product_text(identity.vendor_id, identity.product_id) + ":"@
            + serial@,
        None => physical_text(identity),
    }
}

fn hex4(v: u16) -> (r: String)
    ensures
        r@ == zero_padded(hex(v as nat), 4),
{
    let digits = hex_string(v as u64);
    pad_with_zeros(digits.as_str(), 4)
}

/// The vendor and product key of a device.
pub fn vendor_product_key(identity: &DeviceIdentity) -> (r: String)
    ensures
        r@ == vendor_product_text(identity.vendor_id, identity.product_id),
{
    let mut s = hex4(identity.vendor_id);
    s.append(":");
    let p = hex4(identity.product_id);
    s.append(p.as_str());
    s
}

/// The key of a device's place on the bus.
pub fn physical_device_key(identity: &DeviceIdentity) -> (r: String)
    ensures
        r@ == physical_text(*identity),
{
    let mut s = vendor_product_key(identity);
    s.append("@");
    let l = hex_string(identity.location_id);
    s.append(l.as_str());
    s
}

/// The key of a device.
pub fn device_key(identity: &DeviceIdentity) -> (r: String)
    ensures
        r@ == device_key_text(*identity),
{
    match &identity.serial_number {
        Some(serial) => {
            let mut s = vendor_product_key(identity);
            s.append(":");
            s.append(serial.as_str());
            s
        },
        None => physical_device_key(identity),
    }
}

/// Whether a device reports a serial number that tells it apart: not
/// blank and not `?`.
pub open spec fn useful_serial(identity: DeviceIdentity) -> bool {
    match identity.serial_number {
        Some(serial) => trim(serial@).len() > 0 && serial@ != "?"@,
        None => false,
    }
}

/// Whether a device reports a useful serial number.
pub fn has_useful_serial(identity: &DeviceIdentity) -> (r: bool)
    ensures
        r == useful_serial(*identity),
{
    match &identity.serial_number {
        Some(serial) => !is_blank(serial.as_str()) && !str_equals(serial.as_str(), "?"),
        None => false,
    }
}

/// Whether a device found on the bus is one already connected under the
/// given keys: the same key, the same place on the bus, or (for a device
/// without a useful serial number) the same vendor and product.
pub fn candidate_matches_connected(
    candidate: &DeviceIdentity,
    key: &str,
    physical_key: &str,
    vendor_product: &str,
) -> (r: bool)
    ensures
        r == (device_key_text(*candidate) == key@ || physical_text(*candidate) == physical_key@ || (
        !useful_serial(*candidate) && vendor_product_text(candidate.vendor_id, candidate.product_id)
            == vendor_product@)),
{
    let k = device_key(candidate);
    if str_equals(k.as_str(), key) {
        return true;
    }
    let p = physical_device_key(candidate);
    if str_equals(p.as_str(), physical_key) {
        return true;
    }
    if has_useful_serial(candidate) {
        return false;
    }
    let v = vendor_product_key(candidate);
    str_equals(v.as_str(), vendor_product)
}

/// The keys a connected device is known by.
#[derive(Debug, Clone, PartialEq, Eq)]
pub struct ConnectedKeys {
    pub key: String,
    pub physical_key: String,
    pub vendor_product_key: String,
}

/// Whether a device found on the bus is the connected device `c`.
pub open spec fn matches_connected(candidate: DeviceIdentity, c: ConnectedKeys) -> bool {
    device_key_text(candidate) == c.key@ || physical_text(candidate) == c.physical_key@ || (
    !useful_serial(candidate) && vendor_product_text(candidate.vendor_id, candidate.product_id)
        == c.vendor_product_key@)
}

/// Whether a device found on the bus is one of the connected devices.
pub open spec fn connected_somewhere(candidate: DeviceIdentity, connected: Seq<ConnectedKeys>) -> bool {
    exists|i: int| 0 <= i < connected.len() && matches_connected(candidate, #[trigger] connected[i])
}

/// Whether a device found on the bus is one of the connected devices.
pub fn is_connected(candidate: &DeviceIdentity, connected: &Vec<ConnectedKeys>) -> (r: bool)
    ensures
        r == connected_somewhere(*candidate, connected@),
{
    let mut i: usize = 0;
    while i < connected.len()
        invariant
            i <= connected@.len(),
            forall|j: int| 0 <= j < i ==> !matches_connected(*candidate, #[trigger] connected@[j]),
        decreases connected.len() - i,
    {
        let c = &connected[i];
        if candidate_matches_connected(
            candidate,
            c.key.as_str(),
            c.physical_key.as_str(),
            c.vendor_product_key.as_str(),
        ) {
            proof {
                assert(matches_connected(*candidate, connected@[i as int]));
            }
            return true;
        }
        i = i + 1;
    }
    false
}

/// Whether the connected device `c` is still among the devices found on
/// the bus.
pub fn still_present(candidates: &Vec<DeviceIdentity>, c: &ConnectedKeys) -> (r: bool)
    ensures
        r == exists|k: int| 0 <= k < candidates@.len() && matches_connected(#[trigger] candidates@[k], *c),
{
    let mut k: usize = 0;
    while k < candidates.len()
        invariant
            k <= candidates@.len(),
            forall|m: int| 0 <= m < k ==> !matches_connected(#[trigger] candidates@[m], *c),
        decreases candidates.len() - k,
    {
        if candidate_matches_connected(
            &candidates[k],
            c.key.as_str(),
            c.physical_key.as_str(),
            c.vendor_product_key.as_str(),
        ) {
            proof {
                assert(matches_connected(candidates@[k as int], *c));
            }
            return true;
        }
        k = k + 1;
    }
    false
}

/// Whether candidate `i` is the one kept for its place on the bus: the
/// first candidate there with a serial number, or the first candidate there
/// when none has one.
pub open spec fn kept_candidate(candidates: Seq<DeviceIdentity>, i: int) -> bool {
    let place = physical_text(candidates[i]);
    if exists|j: int|
        0 <= j < candidates.len() && #[trigger] physical_text(candidates[j]) == place
            && candidates[j].serial_number is Some {
        candidates[i].serial_number is Some && forall|j: int|
            0 <= j < i && #[trigger] physical_text(candidates[j]) == place
                ==> candidates[j].serial_number is None
    } else {
        forall|j: int| 0 <= j < i ==> #[trigger] physical_text(candidates[j]) != place
    }
}

impl DeviceIdentity {
    /// A copy of the identity.
    pub fn duplicate(&self) -> (r: Self)
        ensures
            r == *self,
    {
        DeviceIdentity {
            vendor_id: self.vendor_id,
            product_id: self.product_id,
            location_id: self.location_id,
            serial_number: match &self.serial_number {
                Some(s) => Some(s.clone()),
                None => None,
            },
        }
    }
}

/// The kept candidates among the first `i`, in order.
pub open spec fn kept_prefix(candidates: Seq<DeviceIdentity>, i: int) -> Seq<DeviceIdentity>
    decreases i,
{
    if i <= 0 {
        Seq::empty()
    } else if kept_candidate(candidates, i - 1) {
        kept_prefix(candidates, i - 1).push(candidates[i - 1])
    } else {
        kept_prefix(candidates, i - 1)
    }
}

/// The devices found on the bus, one per place (see `kept_candidate`), in
/// the order they were found.
pub fn dedupe_candidates(candidates: &Vec<DeviceIdentity>) -> (r: Vec<DeviceIdentity>)
    ensures
        r@ == kept_prefix(candidates@, candidates@.len() as int),
{
    let ghost all = candidates@;
    let mut places: Vec<String> = Vec::new();
    let mut i: usize = 0;
    while i < candidates.len()
        invariant
            all == candidates@,
            i <= all.len(),
            places@.len() == i,
            forall|k: int| 0 <= k < i ==> #[trigger] places@[k]@ == physical_text(all[k]),
        decreases candidates.len() - i,
    {
        places.push(physical_device_key(&candidates[i]));
        i = i + 1;
    }
    let mut r: Vec<DeviceIdentity> = Vec::new();
    let mut i: usize = 0;
    while i < candidates.len()
        invariant
            all == candidates@,
            i <= all.len(),
            places@.len() == all.len(),
            forall|k: int| 0 <= k < all.len() ==> #[trigger] places@[k]@ == physical_text(all[k]),
            r@ == kept_prefix(all, i as int),
        decreases candidates.len() - i,
    {
        let mut any_serial = false;
        let mut earlier_serial = false;
        let mut earlier_same = false;
        let mut j: usize = 0;
        while j < candidates.len()
            invariant
                all == candidates@,
                i < all.len(),
                j <= all.len(),
                places@.len() == all.len(),
                forall|k: int| 0 <= k < all.len() ==> #[trigger] places@[k]@ == physical_text(all[k]),
                any_serial == exists|k: int|
                    0 <= k < j && physical_text(all[k]) == physical_text(all[i as int])
                        && all[k].serial_number is Some,
                earlier_serial == exists|k: int|
                    0 <= k < j && k < i && physical_text(all[k]) == physical_text(all[i as int])
                        && all[k].serial_number is Some,
                earlier_same == exists|k: int|
                    0 <= k < j && k < i && physical_text(all[k]) == physical_text(all[i as int]),
            decreases candidates.len() - j,
        {
            let same = places[j].eq(&places[i]);
            let has_serial = candidates[j].serial_number.is_some();
            proof {
                assert(same == (physical_text(all[j as int]) == physical_text(all[i as int])));
            }
            if same && has_serial {
                any_serial = true;
                if j < i {
                    earlier_serial = true;
                }
            }
            if same && j < i {
                earlier_same = true;
            }
            j = j + 1;
        }
        let kept = if any_serial {
            candidates[i].serial_number.is_some() && !earlier_serial
        } else {
            !earlier_same
        };
        proof {
            assert(kept == kept_candidate(all, i as int));
        }
        if kept {
            r.push(candidates[i].duplicate());
        }
        i = i + 1;
    }
    r
}

/// Whether an MTP failure means another process holds the device.
pub fn is_exclusive_error(error: &Error) -> (r: bool)
    ensures
        r == (*error matches Error::Mtp { exclusive_access, .. } && exclusive_access),
{
    match error {
        Error::Mtp { exclusive_access, .. } => *exclusive_access,
        _ => false,
    }
}

/// The message logged when a device cannot be opened: the advice to close
/// other apps when another process holds it, the error otherwise.
pub fn open_error_message(key: &str, error: &Error, language: Language) -> (r: String)
    ensures
        r@ == (if *error matches Error::Mtp { exclusive_access, .. } && exclusive_access {
            language.device_exclusively_held_text(key@)
        } else {
            language.open_device_failed_text(key@, error_text(*error, language))
        }),
{
    if is_exclusive_error(error) {
        language.device_exclusively_held(key)
    } else {
        let detail = error.describe(language);
        language.open_device_failed(key, detail.as_str())
    }
}

/// Whether a device accepts uploads: one of its storages is writable and it
/// supports sending objects.
pub fn device_writable(storages: &Vec<StorageSummary>, supports_upload: bool) -> (r: bool)
    ensures
        r == ((exists|i: int| 0 <= i < storages@.len() && storages@[i].writable) && supports_upload),
{
    let mut i: usize = 0;
    while i < storages.len()
        invariant
            i <= storages@.len(),
            forall|k: int| 0 <= k < i ==> !storages@[k].writable,
        decreases storages.len() - i,
    {
        if storages[i].writable {
            return supports_upload;
        }
        i = i + 1;
    }
    false
}

/// An object listed by the device after an upload.
#[derive(Debug, Clone, PartialEq, Eq)]
pub struct ListedObject {
    pub handle: u64,
    pub name: String,
    pub size: u64,
    pub is_dir: bool,
}

/// Whether a listed object is the uploaded one: same name and size, and a
/// folder exactly when one is expected (when that is given).
pub open spec fn upload_matches(
    object: ListedObject,
    name: Seq<char>,
    size: u64,
    is_dir: Option<bool>,
) -> bool {
    &&& object.name@ == name
    &&& object.size == size
    &&& match is_dir {
        Some(expected) => object.is_dir == expected,
        None => true,
    }
}

/// The handle under which an upload landed: the reported handle when it
/// lists the upload, otherwise the first listed object that matches.
pub open spec fn uploaded_handle(
    objects: Seq<ListedObject>,
    name: Seq<char>,
    size: u64,
    reported: Option<u64>,
    is_dir: Option<bool>,
) -> Option<u64> {
    if exists|i: int|
        0 <= i < objects.len() && reported == Some(#[trigger] objects[i].handle) && upload_matches(
            objects[i],
            name,
            size,
            is_dir,
        ) {
        reported
    } else if exists|i: int|
        0 <= i < objects.len() && #[trigger] upload_matches(objects[i], name, size, is_dir) {
        Some(
            objects[choose|i: int|
                0 <= i < objects.len() && #[trigger] upload_matches(objects[i], name, size, is_dir)
                    && forall|j: int| 0 <= j < i ==> !upload_matches(objects[j], name, size, is_dir)].handle,
        )
    } else {
        None
    }
}

fn matches_upload(object: &ListedObject, name: &str, size: u64, is_dir: Option<bool>) -> (r: bool)
    ensures
        r == upload_matches(*object, name@, size, is_dir),
{
    str_equals(object.name.as_str(), name) && object.size == size && match is_dir {
        Some(expected) => object.is_dir == expected,
        None => true,
    }
}

/// The handle under which an upload landed (see `uploaded_handle`).
pub fn find_uploaded_object(
    objects: &Vec<ListedObject>,
    name: &str,
    size: u64,
    reported: Option<u64>,
    is_dir: Option<bool>,
) -> (r: Option<u64>)
    ensures
        r == uploaded_handle(objects@, name@, size, reported, is_dir),
{
    if let Some(handle) = reported {
        let mut i: usize = 0;
        while i < objects.len()
            invariant
                reported == Some(handle),
                i <= objects@.len(),
                forall|k: int|
                    0 <= k < i ==> !(objects@[k].handle == handle && upload_matches(
                        objects@[k],
                        name@,
                        size,
                        is_dir,
                    )),
            decreases objects.len() - i,
        {
            if objects[i].handle == handle && matches_upload(&objects[i], name, size, is_dir) {
                return Some(handle);
            }
            i = i + 1;
        }
    }
    let mut i: usize = 0;
    while i < objects.len()
        invariant
            i <= objects@.len(),
            forall|k: int| 0 <= k < i ==> !upload_matches(objects@[k], name@, size, is_dir),
            !(exists|k: int|
                0 <= k < objects@.len() && reported == Some(objects@[k].handle) && upload_matches(
                    objects@[k],
                    name@,
                    size,
                    is_dir,
                )),
        decreases objects.len() - i,
    {
        if matches_upload(&objects[i], name, size, is_dir) {
            proof {
                let c = choose|c: int|
                    (0 <= c < objects@.len() && upload_matches(objects@[c], name@, size, is_dir))
                        && forall|j: int| 0 <= j < c ==> !upload_matches(
                        objects@[j],
                        name@,
                        size,
                        is_dir,
                    );
                assert(c == i) by {
                    if c < i {
                    } else if c > i {
                        assert(upload_matches(objects@[i as int], name@, size, is_dir));
                    }
                }
            }
            return Some(objects[i].handle);
        }
        i = i + 1;
    }
    None
}


/// The path of the Image Capture daemon, which claims Android devices.
pub const IMAGE_CAPTURE_DAEMON_PATH: &'static str = "/System/Library/Image Capture/Support/icdd";

pub proof fn lemma_before_char_len(s: Seq<char>, c: char)
    ensures
        before_char(s, c).len() <= s.len(),
        before_char(s, c).len() < s.len() ==> s[before_char(s, c).len() as int] == c,
        forall|k: int| 0 <= k < before_char(s, c).len() ==> s[k] != c,
    decreases s.len(),
{
    if s.len() > 0 && s[0] != c {
        lemma_before_char_len(s.drop_first(), c);
        let rest = before_char(s.drop_first(), c);
        assert(before_char(s, c) == seq![s[0]] + rest);
        assert forall|k: int| 0 <= k < before_char(s, c).len() implies s[k] != c by {
            if k > 0 {
                assert(s[k] == s.drop_first()[k - 1]);
            }
        }
        if before_char(s, c).len() < s.len() {
            assert(s[before_char(s, c).len() as int] == s.drop_first()[rest.len() as int]);
        }
    }
}

/// The lines of `s`: the pieces between line breaks. (A carriage return
/// before a break, and the empty piece after a final break, do not change
/// the words of the lines.)
pub open spec fn lines_of(s: Seq<char>) -> Seq<Seq<char>>
    decreases s.len(),
{
    let line = before_char(s, '\n');
    proof {
        lemma_before_char_len(s, '\n');
    }
    if line.len() >= s.len() {
        seq![s]
    } else {
        seq![line] + lines_of(s.subrange(line.len() as int + 1, s.len() as int))
    }
}

/// The words of `s`: its maximal runs of characters other than whitespace.
pub open spec fn words(s: Seq<char>) -> Seq<Seq<char>>
    decreases s.len(),
{
    if s.len() == 0 {
        Seq::empty()
    } else if is_whitespace(s[0]) {
        words(s.drop_first())
    } else {
        let w = before_class(s, CharClass::Whitespace);
        proof {
            lemma_before_class_len(s, CharClass::Whitespace);
        }
        seq![w] + words(s.subrange(w.len() as int, s.len() as int))
    }
}

/// Words joined with single spaces.
pub open spec fn joined(ws: Seq<Seq<char>>) -> Seq<char>
    decreases ws.len(),
{
    if ws.len() == 0 {
        Seq::empty()
    } else if ws.len() == 1 {
        ws[0]
    } else {
        ws[0] + " "@ + joined(ws.drop_first())
    }
}

/// The value of a sequence of decimal digits.
pub open spec fn digits_value(s: Seq<char>) -> nat
    decreases s.len(),
{
    if s.len() == 0 {
        0
    } else {
        digits_value(s.drop_last()) * 10 + ((s.last() as int) - 48) as nat
    }
}

/// Whether every character of `s` is an ASCII digit.
pub open spec fn all_digits(s: Seq<char>) -> bool {
    forall|k: int| 0 <= k < s.len() ==> '0' <= #[trigger] s[k] <= '9'
}

/// A `u32` as `str::parse` reads it: an optional `+`, then at least one
/// decimal digit, for a value that fits.
pub open spec fn parse_u32(s: Seq<char>) -> Option<u32> {
    let d = if s.len() > 0 && s[0] == '+' {
        s.drop_first()
    } else {
        s
    };
    if d.len() > 0 && all_digits(d) && digits_value(d) <= u32::MAX {
        Some(digits_value(d) as u32)
    } else {
        None
    }
}

/// The process id on a line of `ps -axo pid=,uid=,command=` when the process
/// belongs to `uid` and runs exactly the Image Capture daemon.
pub open spec fn daemon_pid(line: Seq<char>, uid: u32) -> Option<u32> {
    let w = words(line);
    if w.len() < 2 {
        None
    } else {
        match parse_u32(w[0]) {
            None => None,
            Some(pid) => match parse_u32(w[1]) {
                None => None,
                Some(owner) => if owner == uid && joined(w.subrange(2, w.len() as int))
                    == IMAGE_CAPTURE_DAEMON_PATH@ {
                    Some(pid)
                } else {
                    None
                },
            },
        }
    }
}

/// The daemon process ids on the lines, in order.
pub open spec fn daemon_pids(lines: Seq<Seq<char>>, uid: u32) -> Seq<u32>
    decreases lines.len(),
{
    if lines.len() == 0 {
        Seq::empty()
    } else {
        let rest = daemon_pids(lines.drop_first(), uid);
        match daemon_pid(lines[0], uid) {
            Some(pid) => seq![pid] + rest,
            None => rest,
        }
    }
}

proof fn lemma_digits_monotone(s: Seq<char>, k: int)
    requires
        0 <= k <= s.len(),
        all_digits(s),
    ensures
        digits_value(s.subrange(0, k)) <= digits_value(s),
    decreases s.len() - k,
{
    if k < s.len() {
        lemma_digits_monotone(s, k + 1);
        let p = s.subrange(0, k + 1);
        assert(p.drop_last() =~= s.subrange(0, k));
        assert('0' <= s[k] <= '9');
    } else {
        assert(s.subrange(0, k) =~= s);
    }
}

fn parse_range(v: &Vec<char>, start: usize, end: usize) -> (r: Option<u32>)
    requires
        start <= end <= v@.len(),
    ensures
        r == parse_u32(v@.subrange(start as int, end as int)),
{
    let ghost s = v@.subrange(start as int, end as int);
    let mut i = start;
    if i < end && v[i] == '+' {
        i = i + 1;
    }
    let ghost d = v@.subrange(i as int, end as int);
    proof {
        if start < end && v@[start as int] == '+' {
            assert(s[0] == v@[start as int]);
            assert(d =~= s.drop_first());
        } else {
            if start < end {
                assert(s[0] == v@[start as int]);
            }
            assert(d =~= s);
        }
    }
    if i == end {
        return None;
    }
    let first = i;
    let mut value: u64 = 0;
    while i < end
        invariant
            first <= i <= end <= v@.len(),
            first < end,
            s == v@.subrange(start as int, end as int),
            d == v@.subrange(first as int, end as int),
            parse_u32(s) == (if d.len() > 0 && all_digits(d) && digits_value(d) <= u32::MAX {
                Some(digits_value(d) as u32)
            } else {
                None
            }),
            value == digits_value(v@.subrange(first as int, i as int)),
            value <= u32::MAX,
            forall|k: int| first <= k < i ==> '0' <= #[trigger] v@[k] <= '9',
        decreases end - i,
    {
        let c = v[i];
        if !('0' <= c && c <= '9') {
            proof {
                assert(d[i - first] == c);
            }
            return None;
        }
        proof {
            let p = v@.subrange(first as int, i + 1);
            assert(p.drop_last() =~= v@.subrange(first as int, i as int));
            assert(p.last() == c);
        }
        value = value * 10 + (c as u64 - 48);
        i = i + 1;
        if value > u32::MAX as u64 {
            proof {
                if all_digits(d) {
                    lemma_digits_monotone(d, i - first);
                    assert(d.subrange(0, i - first) =~= v@.subrange(first as int, i as int));
                }
            }
            return None;
        }
    }
    proof {
        assert(d =~= v@.subrange(first as int, i as int));
        assert(all_digits(d)) by {
            assert forall|k: int| 0 <= k < d.len() implies '0' <= #[trigger] d[k] <= '9' by {
                assert(d[k] == v@[first + k]);
            }
        }
    }
    Some(value as u32)
}

proof fn lemma_words_skip(s: Seq<char>, i: int)
    requires
        0 <= i <= s.len(),
        forall|k: int| 0 <= k < i ==> is_whitespace(#[trigger] s[k]),
    ensures
        words(s) == words(s.subrange(i, s.len() as int)),
    decreases i,
{
    if i > 0 {
        let t = s.drop_first();
        assert forall|k: int| 0 <= k < i - 1 implies is_whitespace(#[trigger] t[k]) by {
            assert(t[k] == s[k + 1]);
        }
        lemma_words_skip(t, i - 1);
        assert(t.subrange(i - 1, t.len() as int) =~= s.subrange(i, s.len() as int));
    } else {
        assert(s.subrange(0, s.len() as int) =~= s);
    }
}

fn word_ranges(v: &Vec<char>, a: usize, b: usize) -> (r: Vec<(usize, usize)>)
    requires
        a <= b <= v@.len(),
    ensures
        r@.len() == words(v@.subrange(a as int, b as int)).len(),
        forall|k: int|
            0 <= k < r@.len() ==> a <= (#[trigger] r@[k]).0 < r@[k].1 <= b && v@.subrange(
                r@[k].0 as int,
                r@[k].1 as int,
            ) == words(v@.subrange(a as int, b as int))[k],
{
    let ghost all = words(v@.subrange(a as int, b as int));
    let mut r: Vec<(usize, usize)> = Vec::new();
    let mut i = a;
    proof {
        assert(all == Seq::<Seq<char>>::empty() + words(v@.subrange(i as int, b as int)));
    }
    while i < b
        invariant
            a <= i <= b <= v@.len(),
            all == words(v@.subrange(a as int, b as int)),
            all == r@.map_values(|p: (usize, usize)| v@.subrange(p.0 as int, p.1 as int)) + words(
                v@.subrange(i as int, b as int),
            ),
            forall|k: int| 0 <= k < r@.len() ==> a <= (#[trigger] r@[k]).0 < r@[k].1 <= i,
        decreases b - i,
    {
        let ghost rest = v@.subrange(i as int, b as int);
        let ghost done = r@.map_values(|p: (usize, usize)| v@.subrange(p.0 as int, p.1 as int));
        if crate::text::is_whitespace_char(v[i]) {
            proof {
                assert(rest[0] == v@[i as int]);
                assert(rest.drop_first() =~= v@.subrange(i + 1, b as int));
            }
            i = i + 1;
        } else {
            let mut j = i;
            while j < b && !crate::text::is_whitespace_char(v[j])
                invariant
                    i <= j <= b <= v@.len(),
                    forall|k: int| i <= k < j ==> !is_whitespace(#[trigger] v@[k]),
                decreases b - j,
            {
                j = j + 1;
            }
            proof {
                assert forall|k: int| 0 <= k < j - i implies !in_class(
                    #[trigger] rest[k],
                    CharClass::Whitespace,
                ) by {
                    assert(rest[k] == v@[k + i]);
                }
                if j < b {
                    assert(rest[j - i] == v@[j as int]);
                }
                lemma_before_class_prefix(rest, CharClass::Whitespace, j - i);
                assert(rest.subrange(0, j - i) =~= v@.subrange(i as int, j as int));
                assert(rest[0] == v@[i as int]);
                assert(rest.subrange(j - i, rest.len() as int) =~= v@.subrange(j as int, b as int));
                assert(words(rest) == seq![v@.subrange(i as int, j as int)] + words(
                    v@.subrange(j as int, b as int),
                ));
            }
            r.push((i, j));
            proof {
                assert(r@.map_values(|p: (usize, usize)| v@.subrange(p.0 as int, p.1 as int))
                    =~= done.push(v@.subrange(i as int, j as int)));
                assert(all =~= r@.map_values(
                    |p: (usize, usize)| v@.subrange(p.0 as int, p.1 as int),
                ) + words(v@.subrange(j as int, b as int)));
            }
            i = j;
        }
    }
    proof {
        assert(words(v@.subrange(i as int, b as int)) =~= Seq::<Seq<char>>::empty());
        let done = r@.map_values(|p: (usize, usize)| v@.subrange(p.0 as int, p.1 as int));
        assert(all =~= done);
        assert forall|k: int| 0 <= k < r@.len() implies v@.subrange(
            (#[trigger] r@[k]).0 as int,
            r@[k].1 as int,
        ) == all[k] by {
            assert(done[k] == v@.subrange(r@[k].0 as int, r@[k].1 as int));
        }
    }
    r
}

proof fn lemma_joined_push(ws: Seq<Seq<char>>, w: Seq<char>)
    requires
        ws.len() > 0,
    ensures
        joined(ws.push(w)) == joined(ws) + " "@ + w,
    decreases ws.len(),
{
    let pushed = ws.push(w);
    assert(pushed[0] == ws[0]);
    if ws.len() == 1 {
        assert(pushed.drop_first() =~= seq![w]);
        assert(joined(seq![w]) == w);
    } else {
        lemma_joined_push(ws.drop_first(), w);
        assert(pushed.drop_first() =~= ws.drop_first().push(w));
        assert(joined(pushed) =~= joined(ws) + " "@ + w);
    }
}

fn line_pid(v: &Vec<char>, a: usize, b: usize, uid: u32) -> (r: Option<u32>)
    requires
        a <= b <= v@.len(),
    ensures
        r == daemon_pid(v@.subrange(a as int, b as int), uid),
{
    let ghost w = words(v@.subrange(a as int, b as int));
    let ranges = word_ranges(v, a, b);
    if ranges.len() < 2 {
        return None;
    }
    let pid = match parse_range(v, ranges[0].0, ranges[0].1) {
        Some(p) => p,
        None => {
            return None;
        },
    };
    let owner = match parse_range(v, ranges[1].0, ranges[1].1) {
        Some(o) => o,
        None => {
            return None;
        },
    };
    if owner != uid {
        return None;
    }
    let mut command = String::new();
    let mut k: usize = 2;
    proof {
        assert(w.subrange(2, 2) =~= Seq::<Seq<char>>::empty());
    }
    while k < ranges.len()
        invariant
            2 <= k <= ranges@.len(),
            ranges@.len() == w.len(),
            forall|m: int|
                0 <= m < ranges@.len() ==> a <= (#[trigger] ranges@[m]).0 < ranges@[m].1 <= b
                    && v@.subrange(ranges@[m].0 as int, ranges@[m].1 as int) == w[m],
            b <= v@.len(),
            command@ == joined(w.subrange(2, k as int)),
        decreases ranges.len() - k,
    {
        let (s, e) = ranges[k];
        let piece = crate::text::string_of_range(v, s, e);
        proof {
            assert(w.subrange(2, k + 1) =~= w.subrange(2, k as int).push(w[k as int]));
            if k > 2 {
                lemma_joined_push(w.subrange(2, k as int), w[k as int]);
            } else {
                assert(w.subrange(2, k + 1) =~= seq![w[k as int]]);
            }
        }
        if k > 2 {
            command.append(" ");
        }
        command.append(piece.as_str());
        k = k + 1;
    }
    if str_equals(command.as_str(), IMAGE_CAPTURE_DAEMON_PATH) {
        Some(pid)
    } else {
        None
    }
}

/// The ids of the processes of `current_uid` that run exactly the Image
/// Capture daemon, from the output of `ps -ww -axo pid=,uid=,command=`.
pub fn image_capture_daemon_pids(process_list: &str, current_uid: u32) -> (r: Vec<u32>)
    ensures
        r@ == daemon_pids(lines_of(process_list@), current_uid),
{
    let v = chars_of(process_list);
    let n = v.len();
    let mut r: Vec<u32> = Vec::new();
    let mut i: usize = 0;
    proof {
        assert(v@.subrange(0, n as int) =~= v@);
    }
    loop
        invariant
            n == v@.len(),
            v@ == process_list@,
            i <= n,
            r@ + daemon_pids(lines_of(v@.subrange(i as int, n as int)), current_uid) == daemon_pids(
                lines_of(v@),
                current_uid,
            ),
        decreases n - i,
    {
        let ghost rest = v@.subrange(i as int, n as int);
        let mut j = i;
        while j < n && v[j] != '\n'
            invariant
                i <= j <= n,
                n == v@.len(),
                forall|k: int| i <= k < j ==> v@[k] != '\n',
            decreases n - j,
        {
            j = j + 1;
        }
        proof {
            assert forall|k: int| 0 <= k < j - i implies rest[k] != '\n' by {
                assert(rest[k] == v@[k + i]);
            }
            if j < n {
                assert(rest[j - i] == v@[j as int]);
            }
            lemma_before_char_prefix(rest, '\n', j - i);
            assert(rest.subrange(0, j - i) =~= v@.subrange(i as int, j as int));
        }
        let found = line_pid(&v, i, j, current_uid);
        let ghost before = r@;
        match found {
            Some(pid) => r.push(pid),
            None => {},
        }
        if j == n {
            proof {
                assert(lines_of(rest) == seq![rest]);
                assert(rest =~= v@.subrange(i as int, j as int));
                assert(seq![rest].drop_first() =~= Seq::<Seq<char>>::empty());
                assert(seq![rest][0] == rest);
                assert(daemon_pids(Seq::<Seq<char>>::empty(), current_uid) =~= Seq::<u32>::empty());
                assert(daemon_pid(rest, current_uid) == found);
                assert(daemon_pids(lines_of(rest), current_uid) =~= match found {
                    Some(p) => seq![p],
                    None => Seq::<u32>::empty(),
                });
                assert(daemon_pids(Seq::<Seq<char>>::empty(), current_uid) =~= Seq::<u32>::empty());
                assert(r@ =~= daemon_pids(lines_of(v@), current_uid));
            }
            return r;
        }
        proof {
            assert(rest.subrange(j - i + 1, rest.len() as int) =~= v@.subrange(j + 1, n as int));
            let tail = lines_of(v@.subrange(j + 1, n as int));
            assert(lines_of(rest) == seq![v@.subrange(i as int, j as int)] + tail);
            assert((seq![v@.subrange(i as int, j as int)] + tail).drop_first() =~= tail);
            assert(r@ + daemon_pids(tail, current_uid) =~= before + daemon_pids(
                lines_of(rest),
                current_uid,
            ));
        }
        i = j + 1;
    }
}


/// A change that a device reports.
#[derive(Debug, Clone, Copy, PartialEq, Eq, Structural)]
pub enum DeviceEvent {
    ObjectAdded { handle: u64 },
    ObjectInfoChanged { handle: u64 },
    ObjectRemoved { handle: u64 },
    StoreAdded { storage_id: u64 },
    StoreRemoved { storage_id: u64 },
    DeviceInfoChanged,
    DeviceReset,
    StorageInfoChanged { storage_id: u64 },
    Unknown { code: u16 },
}

/// Whether `after` is `before` cleared: nothing cached, no refresh
/// registered, and a new epoch.
pub open spec fn cleared(before: &DeviceCache, after: &DeviceCache) -> bool {
    &&& after.listings() == Map::<u128, crate::cache::ListingView>::empty()
    &&& after.objects() == Map::<u128, crate::cache::ObjectEntryView>::empty()
    &&& after.refreshing() == Map::<u128, u64>::empty()
    &&& after.epoch() == (if before.epoch() == u64::MAX {
        0
    } else {
        (before.epoch() + 1) as u64
    })
}

/// Applies a device event to the cache and tells whether the volume
/// changed. An added or changed object is recorded with the metadata read
/// for it (`looked_up`); when it could not be read the cache is cleared. A
/// removed object is forgotten in every storage. Changes of storages or of
/// the device clear the cache; storage information and unknown events
/// change nothing.
pub fn apply_event(
    cache: &mut DeviceCache,
    event: DeviceEvent,
    looked_up: Option<ObjectEntry>,
    now: u64,
) -> (r: bool)
    ensures
        match event {
            DeviceEvent::ObjectAdded { .. } | DeviceEvent::ObjectInfoChanged { .. } => {
                &&& r
                &&& match looked_up {
                    Some(entry) => {
                        &&& final(cache).refreshing() == Map::<u128, u64>::empty()
                        &&& final(cache).epoch() == old(cache).epoch()
                        &&& final(cache).objects() == old(cache).objects().filter_keys(
                            |k: u128| crate::cache::key_handle(k) != entry.handle,
                        ).insert(crate::cache::object_key(entry.storage_id, entry.handle), entry@)
                        &&& final(cache).listings() == old(cache).listings().map_entries(
                            |k: u128, l: crate::cache::ListingView|
                                crate::cache::upserted_listing(k, l, entry@, now),
                        )
                    },
                    None => cleared(&*old(cache), &*final(cache)),
                }
            },
            DeviceEvent::ObjectRemoved { handle } => {
                &&& r
                &&& final(cache).epoch() == old(cache).epoch()
                &&& forall|s: u64| !final(cache).holds_handle(s, handle)
                &&& forall|k: u128|
                    #[trigger] final(cache).objects().contains_key(k) ==> old(
                        cache,
                    ).objects().contains_key(k) && final(cache).objects()[k] == old(
                        cache,
                    ).objects()[k]
                &&& forall|k: u128|
                    #[trigger] final(cache).listings().contains_key(k) ==> old(
                        cache,
                    ).listings().contains_key(k)
            },
            DeviceEvent::StorageInfoChanged { .. } | DeviceEvent::Unknown { .. } => {
                &&& !r
                &&& final(cache).same_state(&*old(cache))
            },
            _ => r && cleared(&*old(cache), &*final(cache)),
        },
{
    match event {
        DeviceEvent::ObjectAdded { .. } | DeviceEvent::ObjectInfoChanged { .. } => {
            match looked_up {
                Some(entry) => cache.upsert_object(entry, now),
                None => cache.clear(),
            }
            true
        },
        DeviceEvent::ObjectRemoved { handle } => {
            cache.remove_handle(handle, now);
            true
        },
        DeviceEvent::StorageInfoChanged { .. } | DeviceEvent::Unknown { .. } => false,
        _ => {
            cache.clear();
            true
        },
    }
}

/// The order in which storages are asked for an object named by an event:
/// the storage whose cache holds the object first (swapped with the first),
/// then the others.
pub fn lookup_order(storage_ids: Vec<u64>, cached: Option<u64>) -> (r: Vec<u64>)
    ensures
        r@ == (match cached {
            Some(c) => if exists|i: int| 0 <= i < storage_ids@.len() && storage_ids@[i] == c {
                let p = choose|i: int|
                    0 <= i < storage_ids@.len() && storage_ids@[i] == c && forall|j: int|
                        0 <= j < i ==> storage_ids@[j] != c;
                storage_ids@.update(0, storage_ids@[p]).update(p, storage_ids@[0])
            } else {
                storage_ids@
            },
            None => storage_ids@,
        }),
{
    let mut ids = storage_ids;
    let ghost original = ids@;
    match cached {
        Some(c) => {
            let mut i: usize = 0;
            while i < ids.len()
                invariant
                    ids@ == original,
                    original == storage_ids@,
                    cached == Some(c),
                    i <= ids@.len(),
                    forall|j: int| 0 <= j < i ==> ids@[j] != c,
                decreases ids.len() - i,
            {
                if ids[i] == c {
                    proof {
                        assert(0 <= i < original.len() && original[i as int] == c && forall|j: int|
                            0 <= j < i ==> original[j] != c);
                        let p = choose|k: int|
                            0 <= k < original.len() && original[k] == c && forall|j: int|
                                0 <= j < k ==> original[j] != c;
                        assert(p == i) by {
                            if p < i {
                            } else if p > i {
                                assert(original[i as int] == c);
                            }
                        }
                    }
                    let first = ids[0];
                    let found = ids[i];
                    ids.set(0, found);
                    ids.set(i, first);
                    return ids;
                }
                i = i + 1;
            }
            ids
        },
        None => ids,
    }
}

/// The message last recorded for `key` in `entries` (the latest entry for
/// it wins).
pub open spec fn failure_lookup(entries: Seq<(Seq<char>, Seq<char>)>, key: Seq<char>) -> Option<Seq<char>>
    decreases entries.len(),
{
    if entries.len() == 0 {
        None
    } else if entries.last().0 == key {
        Some(entries.last().1)
    } else {
        failure_lookup(entries.drop_last(), key)
    }
}

/// The views of failure entries.
pub open spec fn failure_views(entries: Seq<(String, String)>) -> Seq<(Seq<char>, Seq<char>)> {
    entries.map_values(|e: (String, String)| (e.0@, e.1@))
}

/// The last failure to open each device, by device key, so that a failure
/// repeated at every scan is reported once.
#[derive(Debug)]
pub struct OpenFailures {
    entries: Vec<(String, String)>,
}

impl OpenFailures {
    /// The recorded failures.
    pub closed spec fn entries(&self) -> Seq<(Seq<char>, Seq<char>)> {
        failure_views(self.entries@)
    }

    /// The message recorded for the device `key`.
    pub open spec fn message(&self, key: Seq<char>) -> Option<Seq<char>> {
        failure_lookup(self.entries(), key)
    }

    /// No failures.
    pub fn new() -> (r: Self)
        ensures
            forall|key: Seq<char>| r.message(key) is None,
    {
        let r = OpenFailures { entries: Vec::new() };
        proof {
            assert(r.entries() =~= Seq::<(Seq<char>, Seq<char>)>::empty());
        }
        r
    }

    /// Keeps the entries that `keep` accepts (by key).
    fn keep_where(&mut self, key: &str, present: Option<&Vec<String>>)
        ensures
            forall|k: Seq<char>|
                #[trigger] final(self).message(k) == if kept_key(k, key@, present) {
                    old(self).message(k)
                } else {
                    None
                },
    {
        let ghost all = self.entries();
        let mut rest: Vec<(String, String)> = Vec::new();
        std::mem::swap(&mut rest, &mut self.entries);
        let ghost items = rest@;
        let mut kept: Vec<(String, String)> = Vec::new();
        let mut i: usize = 0;
        proof {
            assert(failure_views(items) == all);
            assert(items.len() == rest.len());
        }
        while rest.len() > 0
            invariant
                items.len() <= usize::MAX,
                failure_views(items) == all,
                i + rest@.len() == items.len(),
                rest@ == items.subrange(i as int, items.len() as int),
                forall|k: Seq<char>|
                    #[trigger] failure_lookup(failure_views(kept@), k) == if kept_key(
                        k,
                        key@,
                        present,
                    ) {
                        failure_lookup(all.subrange(0, i as int), k)
                    } else {
                        None
                    },
            decreases rest@.len(),
        {
            let item = rest.remove(0);
            proof {
                assert(rest@ =~= items.subrange(i + 1, items.len() as int));
                assert(all[i as int] == (item.0@, item.1@));
                assert(all.subrange(0, i + 1).drop_last() =~= all.subrange(0, i as int));
                assert(all.subrange(0, i + 1).last() == all[i as int]);
            }
            let keep = keep_key(item.0.as_str(), key, present);
            let ghost before = failure_views(kept@);
            let ghost iv = (item.0@, item.1@);
            let ghost prefix = all.subrange(0, i + 1);
            if keep {
                kept.push(item);
                proof {
                    assert(failure_views(kept@).drop_last() =~= before);
                    assert(failure_views(kept@).last() == iv);
                }
            }
            proof {
                assert(prefix.last() == iv);
                assert(prefix.drop_last() =~= all.subrange(0, i as int));
                assert forall|k: Seq<char>| #[trigger] failure_lookup(failure_views(kept@), k) == if kept_key(
                    k,
                    key@,
                    present,
                ) {
                    failure_lookup(prefix, k)
                } else {
                    None
                } by {
                    assert(failure_lookup(before, k) == if kept_key(k, key@, present) {
                        failure_lookup(all.subrange(0, i as int), k)
                    } else {
                        None
                    });
                    if keep {
                        assert(failure_views(kept@).drop_last() == before);
                    }
                }
            }
            i = i + 1;
        }
        proof {
            assert(all.subrange(0, i as int) =~= all);
        }
        self.entries = kept;
    }

    /// Records a failure to open the device `key`; tells whether its
    /// message differs from the one recorded before (and so is worth
    /// reporting).
    pub fn record(&mut self, key: String, message: String) -> (changed: bool)
        ensures
            changed == reports_change(old(self).entries(), key@, message@),
            forall|k: Seq<char>|
                #[trigger] final(self).message(k) == if k == key@ {
                    Some(message@)
                } else {
                    old(self).message(k)
                },
    {
        let ghost kv = key@;
        let ghost mv = message@;
        let changed = match self.find(key.as_str()) {
            Some(previous) => !str_equals(previous, message.as_str()),
            None => true,
        };
        self.keep_where(key.as_str(), None);
        let ghost middle = self.entries();
        proof {
            assert forall|k: Seq<char>| #[trigger] failure_lookup(middle, k) == if k != kv {
                old(self).message(k)
            } else {
                None
            } by {
                assert(self.message(k) == failure_lookup(middle, k));
            }
        }
        self.entries.push((key, message));
        proof {
            assert(self.entries().drop_last() =~= middle);
            assert(self.entries().last() == (kv, mv));
            assert forall|k: Seq<char>| #[trigger] self.message(k) == if k == kv {
                Some(mv)
            } else {
                old(self).message(k)
            } by {
                if k != kv {
                    assert(failure_lookup(middle, k) == old(self).message(k));
                }
            }
        }
        changed
    }

    fn find(&self, key: &str) -> (r: Option<&str>)
        ensures
            match r {
                Some(m) => self.message(key@) == Some(m@),
                None => self.message(key@) is None,
            },
    {
        let ghost all = self.entries();
        let mut i = self.entries.len();
        proof {
            assert(all.subrange(0, i as int) =~= all);
        }
        while i > 0
            invariant
                all == self.entries(),
                i <= self.entries@.len(),
                failure_lookup(all, key@) == failure_lookup(all.subrange(0, i as int), key@),
            decreases i,
        {
            proof {
                let s = all.subrange(0, i as int);
                assert(s.drop_last() =~= all.subrange(0, i - 1));
                assert(s.last() == all[i - 1]);
            }
            if str_equals(self.entries[i - 1].0.as_str(), key) {
                return Some(self.entries[i - 1].1.as_str());
            }
            i = i - 1;
        }
        None
    }

    /// Forgets the failure of the device `key` (it opened).
    pub fn clear(&mut self, key: &str)
        ensures
            forall|k: Seq<char>|
                #[trigger] final(self).message(k) == if k == key@ {
                    None
                } else {
                    old(self).message(k)
                },
    {
        self.keep_where(key, None);
    }

    /// Forgets the failures of devices that are no longer connected (whose
    /// keys are not among `present`).
    pub fn retain_present(&mut self, present: &Vec<String>)
        ensures
            forall|k: Seq<char>|
                #[trigger] final(self).message(k) == if present@.map_values(|s: String| s@).contains(k) {
                    old(self).message(k)
                } else {
                    None
                },
    {
        self.keep_where("", Some(present));
    }
}

/// Whether a failure of the device `k` is kept: when `present` is given,
/// those of devices among it; otherwise all but that of `key`.
pub open spec fn kept_key(k: Seq<char>, key: Seq<char>, present: Option<&Vec<String>>) -> bool {
    match present {
        Some(keys) => keys@.map_values(|s: String| s@).contains(k),
        None => k != key,
    }
}

fn keep_key(k: &str, key: &str, present: Option<&Vec<String>>) -> (r: bool)
    ensures
        r == kept_key(k@, key@, present),
{
    match present {
        Some(keys) => {
            let ghost views = keys@.map_values(|s: String| s@);
            let mut i: usize = 0;
            while i < keys.len()
                invariant
                    present == Some(keys),
                    views == keys@.map_values(|s: String| s@),
                    i <= keys@.len(),
                    forall|j: int| 0 <= j < i ==> views[j] != k@,
                decreases keys.len() - i,
            {
                if str_equals(keys[i].as_str(), k) {
                    proof {
                        assert(views[i as int] == k@);
                    }
                    return true;
                }
                i = i + 1;
            }
            false
        },
        None => !str_equals(k, key),
    }
}

/// Whether recording `message` for the device `key` reports it: when it
/// differs from the message recorded before.
pub open spec fn reports_change(
    entries: Seq<(Seq<char>, Seq<char>)>,
    key: Seq<char>,
    message: Seq<char>,
) -> bool {
    failure_lookup(entries, key) != Some(message)
}

/// A failure is reported once while it stays the same: once `message` was
/// recorded for the device `key` (the failures going from `before` to
/// `after` as `OpenFailures::record` leaves them), recording it again
/// reports nothing, and what recording a failure of another device reports
/// has not changed.
pub proof fn law_repeated_failures_are_reported_once(
    before: Seq<(Seq<char>, Seq<char>)>,
    after: Seq<(Seq<char>, Seq<char>)>,
    key: Seq<char>,
    message: Seq<char>,
    other: Seq<char>,
    other_message: Seq<char>,
)
    requires
        forall|k: Seq<char>|
            #[trigger] failure_lookup(after, k) == if k == key {
                Some(message)
            } else {
                failure_lookup(before, k)
            },
        other != key,
    ensures
        !reports_change(after, key, message),
        reports_change(after, other, other_message) == reports_change(before, other, other_message),
{
    assert(failure_lookup(after, key) == Some(message));
    assert(failure_lookup(after, other) == failure_lookup(before, other));
}

/// Whether `order` lists each position below `n` once.
pub open spec fn is_permutation(order: Seq<int>, n: nat) -> bool {
    &&& order.len() == n
    &&& forall|i: int| 0 <= i < order.len() ==> 0 <= #[trigger] order[i] < n
    &&& forall|i: int, j: int| 0 <= i < j < order.len() ==> order[i] != order[j]
}

/// Whether summaries are ordered by model, and by serial within a model
/// (both in byte order).
pub open spec fn by_model_and_serial(s: Seq<DeviceSummary>) -> bool {
    forall|i: int, j: int|
        0 <= i < j < s.len() ==> name_lt(#[trigger] s[i].model@, #[trigger] s[j].model@) || (
        s[i].model@ == s[j].model@ && !name_lt(s[j].serial@, s[i].serial@))
}

/// The summaries ordered by model, and by serial within a model.
pub fn sort_summaries(devices: Vec<DeviceSummary>) -> (r: Vec<DeviceSummary>)
    ensures
        by_model_and_serial(r@),
        exists|order: Seq<int>|
            is_permutation(order, devices@.len()) && forall|i: int|
                0 <= i < r@.len() ==> #[trigger] r@[i] == devices@[order[i]],
{
    let ghost original = devices@;
    let mut rest = devices;
    let mut keyed: Vec<(String, DeviceSummary)> = Vec::new();
    while rest.len() > 0
        invariant
            keyed@.len() + rest@.len() == original.len(),
            rest@ == original.subrange(keyed@.len() as int, original.len() as int),
            forall|k: int|
                0 <= k < keyed@.len() ==> #[trigger] keyed@[k].1 == original[k] && keyed@[k].0@
                    == original[k].serial@,
        decreases rest@.len(),
    {
        let k = keyed.len();
        let d = rest.remove(0);
        proof {
            assert(rest@ =~= original.subrange(k + 1, original.len() as int));
        }
        keyed.push((d.serial.clone(), d));
    }
    let ghost first = entries_of(keyed@);
    let by_serial = sort_by_name(keyed);
    let ghost mid = entries_of(by_serial@);
    let ghost order1 = choose|order: Seq<int>| sorted_by_name(first, mid, order);
    let ghost mid_items = by_serial@;
    let mut rest = by_serial;
    let mut rekeyed: Vec<(String, DeviceSummary)> = Vec::new();
    while rest.len() > 0
        invariant
            rekeyed@.len() + rest@.len() == mid_items.len(),
            rest@ == mid_items.subrange(rekeyed@.len() as int, mid_items.len() as int),
            forall|k: int|
                0 <= k < rekeyed@.len() ==> #[trigger] rekeyed@[k].1 == mid_items[k].1
                    && rekeyed@[k].0@ == mid_items[k].1.model@,
        decreases rest@.len(),
    {
        let k = rekeyed.len();
        let item = rest.remove(0);
        proof {
            assert(rest@ =~= mid_items.subrange(k + 1, mid_items.len() as int));
        }
        let d = item.1;
        rekeyed.push((d.model.clone(), d));
    }
    let ghost second = entries_of(rekeyed@);
    let by_model = sort_by_name(rekeyed);
    let ghost last = entries_of(by_model@);
    let ghost order2 = choose|order: Seq<int>| sorted_by_name(second, last, order);
    let ghost last_items = by_model@;
    let mut rest = by_model;
    let mut r: Vec<DeviceSummary> = Vec::new();
    while rest.len() > 0
        invariant
            r@.len() + rest@.len() == last_items.len(),
            rest@ == last_items.subrange(r@.len() as int, last_items.len() as int),
            forall|k: int| 0 <= k < r@.len() ==> #[trigger] r@[k] == last_items[k].1,
        decreases rest@.len(),
    {
        let k = r.len();
        let item = rest.remove(0);
        proof {
            assert(rest@ =~= last_items.subrange(k + 1, last_items.len() as int));
        }
        r.push(item.1);
    }
    proof {
        let n = original.len();
        assert forall|k: int| 0 <= k < mid.len() implies #[trigger] mid_items[k].1 == original[order1[k]]
            && mid_items[k].0@ == original[order1[k]].serial@ by {
            assert(mid[k] == first[order1[k]]);
        }
        assert forall|k: int| 0 <= k < last.len() implies #[trigger] last_items[k].1 == mid_items[order2[k]].1
            && last_items[k].0@ == mid_items[order2[k]].1.model@ by {
            assert(last[k] == second[order2[k]]);
        }
        let order = Seq::new(n, |i: int| order1[order2[i]]);
        assert forall|i: int| 0 <= i < r@.len() implies #[trigger] r@[i] == original[order[i]] by {
            assert(r@[i] == last_items[i].1);
            assert(last_items[i].1 == mid_items[order2[i]].1);
        }
        assert(is_permutation(order, n)) by {
            assert forall|i: int, j: int| 0 <= i < j < order.len() implies order[i] != order[j] by {
                assert(order2[i] != order2[j]);
                if order2[i] < order2[j] {
                    assert(order1[order2[i]] != order1[order2[j]]);
                } else {
                    assert(order1[order2[j]] != order1[order2[i]]);
                }
            }
        }
        assert forall|i: int, j: int| 0 <= i < j < r@.len() implies name_lt(
            #[trigger] r@[i].model@,
            #[trigger] r@[j].model@,
        ) || (r@[i].model@ == r@[j].model@ && !name_lt(r@[j].serial@, r@[i].serial@)) by {
            assert(r@[i] == last_items[i].1 && r@[j] == last_items[j].1);
            assert(name_lt(last[i].0, last[j].0) || (last[i].0 == last[j].0 && order2[i] < order2[j]));
            if !name_lt(last[i].0, last[j].0) {
                let p = order2[i];
                let q = order2[j];
                assert(name_lt(mid[p].0, mid[q].0) || (mid[p].0 == mid[q].0 && order1[p] < order1[q]));
                lemma_name_order(mid[p].0, mid[q].0);
            }
        }
    }
    r
}

} // verus!
