//! Per-device cache of MTP directory listings and object metadata.
//!
//! Listings are keyed by storage and parent directory, objects by storage
//! and handle. Background refreshes of stale listings register themselves
//! under the current epoch; clearing the cache starts a new epoch so that
//! a refresh begun before it can never store its (now stale) result.
use crate::text::push_char;
use mtp_rs::CancelToken;
use std::collections::HashMap;
use vstd::prelude::*;
use vstd::std_specs::iter::IteratorSpec;

verus! {

broadcast use vstd::std_specs::hash::group_hash_axioms;

/// How long a listing is served without a background refresh (milliseconds).
pub const DIRECTORY_CACHE_TTL_MS: u64 = 10_000;

/// How long a listing may be revalidated by its object count alone before a
/// full rescan is required (milliseconds).
pub const DIRECTORY_FULL_REFRESH_INTERVAL_MS: u64 = 300_000;

/// The parent handle that MTP uses for the root of a storage.
pub const MTP_ROOT_HANDLE: u64 = 0;

/// The parent handle that MTP uses to mean "all objects"; Android also
/// reports it as the parent of objects at the root of a storage.
pub const MTP_ALL_HANDLE: u64 = 0xFFFF_FFFF;

#[verifier::external_type_specification]
#[verifier::external_body]
pub struct ExCancelToken(CancelToken);

/// `CancelToken::new` of mtp-rs: a fresh cancellation flag. Whether a token
/// is cancelled is shared state, so nothing is stated of the result.
#[verifier::external_body]
fn new_cancel_token() -> CancelToken {
    CancelToken::new()
}

/// `CancelToken::clone` of mtp-rs: another handle on the same flag.
#[verifier::external_body]
fn clone_cancel_token(token: &CancelToken) -> CancelToken {
    token.clone()
}

/// `CancelToken::cancel` of mtp-rs: raises the shared flag.
#[verifier::external_body]
fn cancel_token(token: &CancelToken) {
    token.cancel()
}

/// `CancelToken::is_cancelled` of mtp-rs. The flag is shared with every
/// clone of the token, so the result is not stated.
#[verifier::external_body]
fn token_is_cancelled(token: &CancelToken) -> bool {
    token.is_cancelled()
}

/// A date and time as an MTP device reports it.
#[derive(Debug, Clone, Copy, PartialEq, Eq, Structural)]
pub struct MtpDateTime {
    pub year: u16,
    pub month: u8,
    pub day: u8,
    pub hour: u8,
    pub minute: u8,
    pub second: u8,
}

/// Metadata of one object on a device.
#[derive(Debug, Clone, PartialEq, Eq)]
pub struct ObjectEntry {
    pub handle: u64,
    pub storage_id: u64,
    pub parent: u64,
    pub name: String,
    pub size: u64,
    pub is_dir: bool,
    pub created: Option<MtpDateTime>,
    pub modified: Option<MtpDateTime>,
}

/// An object entry with its name as a character sequence.
pub struct ObjectEntryView {
    pub handle: u64,
    pub storage_id: u64,
    pub parent: u64,
    pub name: Seq<char>,
    pub size: u64,
    pub is_dir: bool,
    pub created: Option<MtpDateTime>,
    pub modified: Option<MtpDateTime>,
}

impl View for ObjectEntry {
    type V = ObjectEntryView;

    open spec fn view(&self) -> ObjectEntryView {
        ObjectEntryView {
            handle: self.handle,
            storage_id: self.storage_id,
            parent: self.parent,
            name: self.name@,
            size: self.size,
            is_dir: self.is_dir,
            created: self.created,
            modified: self.modified,
        }
    }
}

/// The views of a sequence of entries.
pub open spec fn entries_view(entries: Seq<ObjectEntry>) -> Seq<ObjectEntryView> {
    entries.map_values(|e: ObjectEntry| e@)
}

fn same_time(a: Option<MtpDateTime>, b: Option<MtpDateTime>) -> (r: bool)
    ensures
        r == (a == b),
{
    match (a, b) {
        (None, None) => true,
        (Some(x), Some(y)) => x == y,
        _ => false,
    }
}

impl ObjectEntry {
    /// A copy of the entry.
    pub fn duplicate(&self) -> (r: Self)
        ensures
            r@ == self@,
    {
        ObjectEntry {
            handle: self.handle,
            storage_id: self.storage_id,
            parent: self.parent,
            name: self.name.clone(),
            size: self.size,
            is_dir: self.is_dir,
            created: self.created,
            modified: self.modified,
        }
    }

    /// Whether two entries hold the same metadata.
    pub fn same_as(&self, other: &ObjectEntry) -> (r: bool)
        ensures
            r == (self@ == other@),
    {
        self.handle == other.handle && self.storage_id == other.storage_id && self.parent
            == other.parent && self.name == other.name && self.size == other.size && self.is_dir
            == other.is_dir && same_time(self.created, other.created) && same_time(
            self.modified,
            other.modified,
        )
    }
}

/// A copy of a list of entries.
pub fn duplicate_entries(entries: &Vec<ObjectEntry>) -> (r: Vec<ObjectEntry>)
    ensures
        entries_view(r@) == entries_view(entries@),
{
    let mut r: Vec<ObjectEntry> = Vec::new();
    let mut i: usize = 0;
    while i < entries.len()
        invariant
            i <= entries@.len(),
            r@.len() == i,
            forall|k: int| 0 <= k < i ==> r@[k]@ == entries@[k]@,
        decreases entries.len() - i,
    {
        r.push(entries[i].duplicate());
        i = i + 1;
    }
    proof {
        assert(entries_view(r@) =~= entries_view(entries@));
    }
    r
}

/// Whether two lists hold the same entries in the same order.
pub fn same_entries(a: &Vec<ObjectEntry>, b: &Vec<ObjectEntry>) -> (r: bool)
    ensures
        r == (entries_view(a@) == entries_view(b@)),
{
    if a.len() != b.len() {
        proof {
            assert(entries_view(a@).len() != entries_view(b@).len());
        }
        return false;
    }
    let mut i: usize = 0;
    while i < a.len()
        invariant
            a@.len() == b@.len(),
            i <= a@.len(),
            forall|k: int| 0 <= k < i ==> a@[k]@ == b@[k]@,
        decreases a.len() - i,
    {
        if !a[i].same_as(&b[i]) {
            proof {
                assert(entries_view(a@)[i as int] != entries_view(b@)[i as int]);
            }
            return false;
        }
        i = i + 1;
    }
    proof {
        assert(entries_view(a@) =~= entries_view(b@));
    }
    true
}

/// `2^64`, the factor that places a storage id above a handle in a key.
pub open spec fn key_base() -> int {
    0x1_0000_0000_0000_0000
}

/// The key of the listing of `parent` in `storage_id`; the storage root
/// may be named by `None` or by the root handle.
pub open spec fn dir_key(storage_id: u64, parent: Option<u64>) -> u128 {
    (storage_id * key_base() + match parent {
        Some(p) => p as int,
        None => 0,
    }) as u128
}

/// The key of object `handle` in `storage_id`.
pub open spec fn object_key(storage_id: u64, handle: u64) -> u128 {
    (storage_id * key_base() + handle) as u128
}

/// The storage id of a key.
pub open spec fn key_storage(key: u128) -> u64 {
    (key / key_base() as u128) as u64
}

/// The handle (or parent handle) of a key.
pub open spec fn key_handle(key: u128) -> u64 {
    (key % key_base() as u128) as u64
}

pub proof fn lemma_key_parts(storage_id: u64, handle: u64)
    ensures
        key_storage(object_key(storage_id, handle)) == storage_id,
        key_handle(object_key(storage_id, handle)) == handle,
        object_key(storage_id, handle) == dir_key(storage_id, Some(handle)),
{
    assert((storage_id * key_base() + handle) / key_base() == storage_id) by (nonlinear_arith)
        requires
            0 <= handle < key_base(),
            key_base() > 0,
    ;
    assert((storage_id * key_base() + handle) % key_base() == handle) by (nonlinear_arith)
        requires
            0 <= handle < key_base(),
            key_base() > 0,
    ;
    assert(storage_id * key_base() + handle < 0x1_0000_0000_0000_0000_0000_0000_0000_0000)
        by (nonlinear_arith)
        requires
            0 <= handle < key_base(),
            0 <= storage_id < key_base(),
            key_base() == 0x1_0000_0000_0000_0000,
    ;
}

pub proof fn lemma_key_injective(s1: u64, h1: u64, s2: u64, h2: u64)
    ensures
        object_key(s1, h1) == object_key(s2, h2) <==> (s1 == s2 && h1 == h2),
{
    lemma_key_parts(s1, h1);
    lemma_key_parts(s2, h2);
}

fn make_key(storage_id: u64, handle: u64) -> (k: u128)
    ensures
        k == object_key(storage_id, handle),
        k == dir_key(storage_id, Some(handle)),
        key_storage(k) == storage_id,
        key_handle(k) == handle,
{
    proof {
        lemma_key_parts(storage_id, handle);
    }
    (storage_id as u128) * 0x1_0000_0000_0000_0000 + handle as u128
}

fn make_dir_key(storage_id: u64, parent: Option<u64>) -> (k: u128)
    ensures
        k == dir_key(storage_id, parent),
        key_storage(k) == storage_id,
{
    let p = match parent {
        Some(p) => p,
        None => 0,
    };
    make_key(storage_id, p)
}

fn storage_of_key(key: u128) -> (s: u64)
    ensures
        s == key_storage(key),
{
    (key / 0x1_0000_0000_0000_0000) as u64
}

/// Whether some entry has handle `h`.
pub open spec fn listed(entries: Seq<ObjectEntryView>, h: u64) -> bool {
    exists|i: int| 0 <= i < entries.len() && entries[i].handle == h
}

/// `objects` with each entry of `entries` stored under its handle in
/// `storage_id`, in order (a later entry with the same handle wins).
pub open spec fn insert_entries(
    objects: Map<u128, ObjectEntryView>,
    storage_id: u64,
    entries: Seq<ObjectEntryView>,
) -> Map<u128, ObjectEntryView>
    decreases entries.len(),
{
    if entries.len() == 0 {
        objects
    } else {
        insert_entries(objects, storage_id, entries.drop_last()).insert(
            object_key(storage_id, entries.last().handle),
            entries.last(),
        )
    }
}

/// `objects` without the entries of `previous` (in `storage_id`) whose
/// handles are not listed in `current`.
pub open spec fn drop_unlisted(
    objects: Map<u128, ObjectEntryView>,
    storage_id: u64,
    previous: Seq<ObjectEntryView>,
    current: Seq<ObjectEntryView>,
) -> Map<u128, ObjectEntryView>
    decreases previous.len(),
{
    if previous.len() == 0 {
        objects
    } else {
        let rest = drop_unlisted(objects, storage_id, previous.drop_last(), current);
        if listed(current, previous.last().handle) {
            rest
        } else {
            rest.remove(object_key(storage_id, previous.last().handle))
        }
    }
}

/// The objects after `entries` replace the listing `previous` of a
/// directory in `storage_id`: objects that left the directory are dropped
/// and every listed entry is recorded.
pub open spec fn objects_after_listing(
    objects: Map<u128, ObjectEntryView>,
    storage_id: u64,
    previous: Option<ListingView>,
    entries: Seq<ObjectEntryView>,
) -> Map<u128, ObjectEntryView> {
    let kept = match previous {
        Some(listing) => drop_unlisted(objects, storage_id, listing.entries, entries),
        None => objects,
    };
    insert_entries(kept, storage_id, entries)
}

/// Every entry that no later entry shadows is recorded as it was listed.
pub proof fn lemma_inserted_entry(
    objects: Map<u128, ObjectEntryView>,
    storage_id: u64,
    entries: Seq<ObjectEntryView>,
    i: int,
)
    requires
        0 <= i < entries.len(),
        forall|j: int| i < j < entries.len() ==> entries[j].handle != entries[i].handle,
    ensures
        insert_entries(objects, storage_id, entries).contains_key(
            object_key(storage_id, entries[i].handle),
        ),
        insert_entries(objects, storage_id, entries)[object_key(storage_id, entries[i].handle)]
            == entries[i],
    decreases entries.len(),
{
    if i < entries.len() - 1 {
        let last = entries.last();
        lemma_key_injective(storage_id, last.handle, storage_id, entries[i].handle);
        lemma_inserted_entry(objects, storage_id, entries.drop_last(), i);
    }
}

/// `entries` without those whose handle is `h`.
pub open spec fn without_handle(entries: Seq<ObjectEntryView>, h: u64) -> Seq<
    ObjectEntryView,
>
    decreases entries.len(),
{
    if entries.len() == 0 {
        entries
    } else {
        let rest = without_handle(entries.drop_last(), h);
        if entries.last().handle == h {
            rest
        } else {
            rest.push(entries.last())
        }
    }
}

pub proof fn lemma_without_handle(entries: Seq<ObjectEntryView>, h: u64)
    ensures
        without_handle(entries, h).len() <= entries.len(),
        !listed(without_handle(entries, h), h),
        forall|i: int|
            0 <= i < without_handle(entries, h).len() ==> entries.contains(
                #[trigger] without_handle(entries, h)[i],
            ),
        !listed(entries, h) ==> without_handle(entries, h) == entries,
        listed(entries, h) ==> without_handle(entries, h).len() < entries.len(),
    decreases entries.len(),
{
    if entries.len() > 0 {
        let rest = entries.drop_last();
        lemma_without_handle(rest, h);
        if listed(entries, h) && entries.last().handle != h {
            let j = choose|j: int| 0 <= j < entries.len() && entries[j].handle == h;
            assert(rest[j].handle == h);
        }
        let w = without_handle(entries, h);
        assert forall|i: int| 0 <= i < w.len() implies entries.contains(#[trigger] w[i]) by {
            if i < without_handle(rest, h).len() {
                assert(rest.contains(w[i]));
                let j = choose|j: int| 0 <= j < rest.len() && rest[j] == w[i];
                assert(entries[j] == w[i]);
            } else {
                assert(entries[entries.len() - 1] == w[i]);
            }
        }
        if !listed(entries, h) {
            assert(entries.last().handle != h);
            assert(!listed(rest, h)) by {
                if listed(rest, h) {
                    let j = choose|j: int| 0 <= j < rest.len() && rest[j].handle == h;
                    assert(entries[j].handle == h);
                }
            }
            assert(rest.push(entries.last()) =~= entries);
        }
    }
}

/// The entries of a listing once the entries with handle `h` in storage
/// `storage_id` have left it.
pub open spec fn kept_entries(key: u128, listing: ListingView, storage_id: u64, h: u64) -> Seq<
    ObjectEntryView,
> {
    if key_storage(key) == storage_id {
        without_handle(listing.entries, h)
    } else {
        listing.entries
    }
}

/// A listing once the entries with handle `h` in storage `storage_id` have
/// left it; a listing that lost entries counts as loaded at `now`.
pub open spec fn shrunk_listing(
    key: u128,
    listing: ListingView,
    storage_id: u64,
    h: u64,
    now: u64,
) -> ListingView {
    let kept = kept_entries(key, listing, storage_id, h);
    if kept.len() != listing.entries.len() {
        ListingView { loaded_at: now, fully_loaded_at: now, entries: kept }
    } else {
        listing
    }
}

/// A shrunk listing holds exactly the kept entries.
pub proof fn lemma_shrunk_entries(key: u128, listing: ListingView, storage_id: u64, h: u64, now: u64)
    ensures
        shrunk_listing(key, listing, storage_id, h, now).entries == kept_entries(
            key,
            listing,
            storage_id,
            h,
        ),
{
    lemma_without_handle(listing.entries, h);
}

/// A listing after an object event recorded `entry` at `now`: in the
/// object's storage, entries with its handle leave every listing (which
/// then counts as loaded at `now`), and the entry joins the listing of its
/// parent directory.
pub open spec fn upserted_listing(
    key: u128,
    listing: ListingView,
    entry: ObjectEntryView,
    now: u64,
) -> ListingView {
    if key == dir_key(entry.storage_id, Some(entry.parent)) {
        ListingView {
            loaded_at: now,
            fully_loaded_at: now,
            entries: kept_entries(key, listing, entry.storage_id, entry.handle).push(entry),
        }
    } else {
        shrunk_listing(key, listing, entry.storage_id, entry.handle, now)
    }
}

/// `entries` without those whose handle is in `removed`.
pub open spec fn without_handles(entries: Seq<ObjectEntryView>, removed: Set<u64>) -> Seq<
    ObjectEntryView,
>
    decreases entries.len(),
{
    if entries.len() == 0 {
        entries
    } else {
        let rest = without_handles(entries.drop_last(), removed);
        if removed.contains(entries.last().handle) {
            rest
        } else {
            rest.push(entries.last())
        }
    }
}

pub proof fn lemma_without_handles(entries: Seq<ObjectEntryView>, removed: Set<u64>)
    ensures
        without_handles(entries, removed).len() <= entries.len(),
        without_handles(entries, removed).len() == entries.len() ==> without_handles(
            entries,
            removed,
        ) == entries,
        forall|i: int|
            0 <= i < without_handles(entries, removed).len() ==> entries.contains(
                #[trigger] without_handles(entries, removed)[i],
            ) && !removed.contains(without_handles(entries, removed)[i].handle),
        forall|i: int|
            0 <= i < entries.len() && !removed.contains(#[trigger] entries[i].handle)
                ==> without_handles(entries, removed).contains(entries[i]),
    decreases entries.len(),
{
    if entries.len() > 0 {
        let rest = entries.drop_last();
        lemma_without_handles(rest, removed);
        let w = without_handles(entries, removed);
        let wr = without_handles(rest, removed);
        assert forall|i: int| 0 <= i < w.len() implies entries.contains(#[trigger] w[i])
            && !removed.contains(w[i].handle) by {
            if i < wr.len() {
                assert(rest.contains(wr[i]));
                let j = choose|j: int| 0 <= j < rest.len() && rest[j] == wr[i];
                assert(entries[j] == w[i]);
            } else {
                assert(entries[entries.len() - 1] == w[i]);
            }
        }
        assert forall|i: int|
            0 <= i < entries.len() && !removed.contains(#[trigger] entries[i].handle) implies w.contains(
            entries[i],
        ) by {
            if i < rest.len() {
                assert(rest[i] == entries[i]);
                assert(wr.contains(rest[i]));
                let j = choose|j: int| 0 <= j < wr.len() && wr[j] == rest[i];
                assert(w[j] == entries[i]);
            } else {
                assert(w[w.len() - 1] == entries[i]);
            }
        }
        if w.len() == entries.len() {
            assert(!removed.contains(entries.last().handle));
            assert(rest.push(entries.last()) =~= entries);
        }
    }
}

/// Removing the entries with handle `h` after those with handles in
/// `removed` is removing those with handles in `removed` and `h`.
pub proof fn lemma_without_one_more(entries: Seq<ObjectEntryView>, removed: Set<u64>, h: u64)
    ensures
        without_handle(without_handles(entries, removed), h) == without_handles(
            entries,
            removed.insert(h),
        ),
    decreases entries.len(),
{
    if entries.len() > 0 {
        let rest = entries.drop_last();
        lemma_without_one_more(rest, removed, h);
        let wr = without_handles(rest, removed);
        if !removed.contains(entries.last().handle) {
            assert(wr.push(entries.last()).drop_last() =~= wr);
        }
    }
}

/// A listing once the entries with handles in `removed` (in storage
/// `storage_id`) have left it; a listing that lost entries counts as loaded
/// at `now`.
pub open spec fn pruned_listing(
    key: u128,
    listing: ListingView,
    storage_id: u64,
    removed: Set<u64>,
    now: u64,
) -> ListingView {
    if key_storage(key) == storage_id {
        let kept = without_handles(listing.entries, removed);
        if kept.len() != listing.entries.len() {
            ListingView { loaded_at: now, fully_loaded_at: now, entries: kept }
        } else {
            listing
        }
    } else {
        listing
    }
}

pub proof fn lemma_pruned_one_more(
    key: u128,
    listing: ListingView,
    storage_id: u64,
    removed: Set<u64>,
    h: u64,
    now: u64,
)
    ensures
        shrunk_listing(key, pruned_listing(key, listing, storage_id, removed, now), storage_id, h, now)
            == pruned_listing(key, listing, storage_id, removed.insert(h), now),
        pruned_listing(key, listing, storage_id, Set::<u64>::empty(), now) == listing,
        key_storage(key) == storage_id ==> pruned_listing(
            key,
            listing,
            storage_id,
            removed,
            now,
        ).entries == without_handles(listing.entries, removed),
{
    lemma_without_handles(listing.entries, removed);
    lemma_without_handles(listing.entries, removed.insert(h));
    lemma_without_handles(listing.entries, Set::<u64>::empty());
    let kept = without_handles(listing.entries, removed);
    lemma_without_handle(kept, h);
    lemma_without_one_more(listing.entries, removed, h);
    lemma_without_nothing(listing.entries);
}

proof fn lemma_without_nothing(entries: Seq<ObjectEntryView>)
    ensures
        without_handles(entries, Set::<u64>::empty()) == entries,
    decreases entries.len(),
{
    if entries.len() > 0 {
        lemma_without_nothing(entries.drop_last());
        assert(entries.drop_last().push(entries.last()) =~= entries);
    }
}

/// Whether a key names object `handle` (or its listing) for some handle in
/// `removed`, in storage `storage_id`.
pub open spec fn names_removed(key: u128, storage_id: u64, removed: Set<u64>) -> bool {
    key_storage(key) == storage_id && removed.contains(key_handle(key))
}

/// Whether the cached listing of directory `parent` in `storage_id` lists `child`.
pub open spec fn child_of(
    listings: Map<u128, ListingView>,
    storage_id: u64,
    parent: u64,
    child: u64,
) -> bool {
    listings.contains_key(object_key(storage_id, parent)) && listed(
        listings[object_key(storage_id, parent)].entries,
        child,
    )
}

/// Whether `order` starts at `handle` and each later handle in it is listed
/// in the cached directory of an earlier one.
pub open spec fn reached_in_order(
    listings: Map<u128, ListingView>,
    storage_id: u64,
    handle: u64,
    order: Seq<u64>,
) -> bool {
    &&& order.len() > 0
    &&& order[0] == handle
    &&& forall|i: int|
        #![trigger order[i]]
        0 < i < order.len() ==> exists|j: int|
            0 <= j < i && child_of(listings, storage_id, order[j], order[i])
}

/// Whether `handles` holds every object listed in the cached directory of
/// one of its members.
pub open spec fn closed_under_children(
    listings: Map<u128, ListingView>,
    storage_id: u64,
    handles: Set<u64>,
) -> bool {
    forall|p: u64, c: u64|
        #[trigger] handles.contains(p) && #[trigger] child_of(listings, storage_id, p, c)
            ==> handles.contains(c)
}

/// Whether `handles` is `handle` together with everything below it in the
/// cached listings of `storage_id`.
pub open spec fn is_subtree(
    listings: Map<u128, ListingView>,
    storage_id: u64,
    handle: u64,
    handles: Set<u64>,
) -> bool {
    &&& exists|order: Seq<u64>|
        reached_in_order(listings, storage_id, handle, order) && order.to_set() == handles
    &&& closed_under_children(listings, storage_id, handles)
}

proof fn lemma_order_within(
    listings: Map<u128, ListingView>,
    storage_id: u64,
    handle: u64,
    order: Seq<u64>,
    handles: Set<u64>,
    i: int,
)
    requires
        reached_in_order(listings, storage_id, handle, order),
        handles.contains(handle),
        closed_under_children(listings, storage_id, handles),
        0 <= i < order.len(),
    ensures
        handles.contains(order[i]),
    decreases i,
{
    if i > 0 {
        let j = choose|j: int| 0 <= j < i && child_of(listings, storage_id, order[j], order[i]);
        lemma_order_within(listings, storage_id, handle, order, handles, j);
    }
}

/// The subtree below a handle is unique: any two sets that both are
/// `handle` with everything below it are equal.
pub proof fn law_subtree_unique(
    listings: Map<u128, ListingView>,
    storage_id: u64,
    handle: u64,
    a: Set<u64>,
    b: Set<u64>,
)
    requires
        is_subtree(listings, storage_id, handle, a),
        is_subtree(listings, storage_id, handle, b),
    ensures
        a == b,
{
    let oa = choose|order: Seq<u64>|
        reached_in_order(listings, storage_id, handle, order) && order.to_set() == a;
    let ob = choose|order: Seq<u64>|
        reached_in_order(listings, storage_id, handle, order) && order.to_set() == b;
    assert(oa.to_set().contains(oa[0]));
    assert(ob.to_set().contains(ob[0]));
    assert forall|x: u64| a.contains(x) implies b.contains(x) by {
        assert(oa.to_set().contains(x));
        let i = choose|i: int| 0 <= i < oa.len() && oa[i] == x;
        lemma_order_within(listings, storage_id, handle, oa, b, i);
    }
    assert forall|x: u64| b.contains(x) implies a.contains(x) by {
        assert(ob.to_set().contains(x));
        let i = choose|i: int| 0 <= i < ob.len() && ob[i] == x;
        lemma_order_within(listings, storage_id, handle, ob, a, i);
    }
    assert(a =~= b);
}

/// Every key is the key of its own storage and handle.
pub proof fn lemma_key_roundtrip(key: u128)
    ensures
        key == object_key(key_storage(key), key_handle(key)),
{
    let b = key_base();
    assert(key == (key / (b as u128)) * b + key % (b as u128)) by (nonlinear_arith)
        requires
            b == 0x1_0000_0000_0000_0000,
    ;
    assert(key / (b as u128) < b) by (nonlinear_arith)
        requires
            b == 0x1_0000_0000_0000_0000,
            key < 0x1_0000_0000_0000_0000_0000_0000_0000_0000,
    ;
}

proof fn lemma_push_to_set<A>(s: Seq<A>, x: A)
    ensures
        s.push(x).to_set() == s.to_set().insert(x),
{
    assert forall|y: A| #[trigger] s.push(x).contains(y) <==> (s.contains(y) || y == x) by {
        if s.push(x).contains(y) {
            let m = choose|m: int| 0 <= m < s.push(x).len() && s.push(x)[m] == y;
            if m < s.len() {
                assert(s[m] == y);
            }
        }
        if s.contains(y) {
            let m = choose|m: int| 0 <= m < s.len() && s[m] == y;
            assert(s.push(x)[m] == y);
        }
        if y == x {
            assert(s.push(x)[s.len() as int] == y);
        }
    }
    assert(s.push(x).to_set() =~= s.to_set().insert(x));
}

/// The bookkeeping of a walk from `handle` down the cached listings:
/// `order` holds the handles processed so far, each reached from an earlier
/// one, and every handle still `pending` is `handle` or a child of a
/// processed one.
spec fn walk_ok(
    listings: Map<u128, ListingView>,
    storage_id: u64,
    handle: u64,
    order: Seq<u64>,
    pending: Seq<u64>,
) -> bool {
    &&& order.len() == 0 ==> pending.len() > 0
    &&& order.len() > 0 ==> order[0] == handle
    &&& forall|i: int|
        #![trigger order[i]]
        0 < i < order.len() ==> exists|j: int|
            0 <= j < i && child_of(listings, storage_id, order[j], order[i])
    &&& forall|m: int|
        #![trigger pending[m]]
        0 <= m < pending.len() ==> pending[m] == handle || exists|j: int|
            0 <= j < order.len() && child_of(listings, storage_id, order[j], pending[m])
}

/// Every child of a processed handle is processed or pending.
spec fn walk_closed(
    listings: Map<u128, ListingView>,
    storage_id: u64,
    done: Set<u64>,
    pending: Seq<u64>,
) -> bool {
    forall|p: u64, c: u64|
        #[trigger] done.contains(p) && #[trigger] child_of(listings, storage_id, p, c)
            ==> done.contains(c) || pending.contains(c)
}

/// One step of the walk: the last pending handle is processed and
/// `children` (its children) become pending.
proof fn lemma_walk_step(
    listings: Map<u128, ListingView>,
    storage_id: u64,
    handle: u64,
    order: Seq<u64>,
    pending: Seq<u64>,
    children: Seq<u64>,
) -> (next: Seq<u64>)
    requires
        walk_ok(listings, storage_id, handle, order, pending),
        pending.len() > 0,
        forall|t: int|
            0 <= t < children.len() ==> child_of(
                listings,
                storage_id,
                pending.last(),
                #[trigger] children[t],
            ),
    ensures
        next == (if order.to_set().contains(pending.last()) {
            order
        } else {
            order.push(pending.last())
        }),
        next.to_set() == order.to_set().insert(pending.last()),
        walk_ok(listings, storage_id, handle, next, pending.drop_last() + children),
{
    let current = pending.last();
    let next = if order.to_set().contains(current) {
        order
    } else {
        order.push(current)
    };
    if order.to_set().contains(current) {
        assert(next.to_set() =~= order.to_set().insert(current));
    } else {
        lemma_push_to_set(order, current);
    }
    let rest = pending.drop_last() + children;
    let m0 = pending.len() - 1;
    assert(pending[m0] == current);
    assert forall|i: int| #![trigger next[i]] 0 < i < next.len() implies exists|j: int|
        0 <= j < i && child_of(listings, storage_id, next[j], next[i]) by {
        if i < order.len() {
            assert(next[i] == order[i]);
            let j = choose|j: int| 0 <= j < i && child_of(listings, storage_id, order[j], order[i]);
            assert(next[j] == order[j]);
        } else {
            if exists|j: int| 0 <= j < order.len() && child_of(listings, storage_id, order[j], pending[m0]) {
                let j = choose|j: int|
                    0 <= j < order.len() && child_of(listings, storage_id, order[j], pending[m0]);
                assert(next[j] == order[j]);
            } else {
                assert(current == handle);
                if order.len() > 0 {
                    assert(order[0] == handle);
                    assert(order.to_set().contains(order[0]));
                }
            }
        }
    }
    let at = if order.to_set().contains(current) {
        choose|j: int| 0 <= j < order.len() && order[j] == current
    } else {
        order.len() as int
    };
    assert(0 <= at < next.len() && next[at] == current);
    assert forall|m: int| #![trigger rest[m]] 0 <= m < rest.len() implies rest[m] == handle
        || exists|j: int| 0 <= j < next.len() && child_of(listings, storage_id, next[j], rest[m]) by {
        if m < pending.len() - 1 {
            assert(rest[m] == pending[m]);
            if rest[m] != handle {
                let j = choose|j: int|
                    0 <= j < order.len() && child_of(listings, storage_id, order[j], pending[m]);
                assert(next[j] == order[j]);
            }
        } else {
            let t = m - (pending.len() - 1);
            assert(rest[m] == children[t]);
            assert(child_of(listings, storage_id, next[at], rest[m]));
        }
    }
    next
}

/// The closure bookkeeping of one step: the children of the processed
/// handle that were not processed before become pending.
proof fn lemma_walk_closed_step(
    listings: Map<u128, ListingView>,
    storage_id: u64,
    done: Set<u64>,
    pending: Seq<u64>,
    children: Seq<u64>,
)
    requires
        walk_closed(listings, storage_id, done, pending),
        pending.len() > 0,
        !done.contains(pending.last()) ==> forall|c: u64|
            #[trigger] child_of(listings, storage_id, pending.last(), c) && !done.contains(c)
                ==> children.contains(c),
    ensures
        walk_closed(
            listings,
            storage_id,
            done.insert(pending.last()),
            pending.drop_last() + children,
        ),
{
    let current = pending.last();
    let rest = pending.drop_last() + children;
    assert forall|p: u64, c: u64|
        #[trigger] done.insert(current).contains(p) && #[trigger] child_of(listings, storage_id, p, c)
            implies done.insert(current).contains(c) || rest.contains(c) by {
        let keep = |x: u64| pending.drop_last().contains(x) ==> rest.contains(x);
        if pending.drop_last().contains(c) {
            let m = choose|m: int| 0 <= m < pending.drop_last().len() && pending.drop_last()[m] == c;
            assert(rest[m] == c);
        }
        if children.contains(c) {
            let t = choose|t: int| 0 <= t < children.len() && children[t] == c;
            assert(rest[pending.len() - 1 + t] == c);
        }
        if pending.contains(c) && c != current {
            let m = choose|m: int| 0 <= m < pending.len() && pending[m] == c;
            assert(m != pending.len() - 1);
            assert(pending.drop_last()[m] == c);
        }
        if done.contains(p) {
        } else {
            assert(p == current);
        }
    }
}

/// Whether some entry has a handle in `removed`.
pub open spec fn lists_any(entries: Seq<ObjectEntryView>, removed: Set<u64>) -> bool {
    exists|i: int| 0 <= i < entries.len() && removed.contains(#[trigger] entries[i].handle)
}

/// Whether invalidating the handles in `removed` (in storage `storage_id`)
/// drops the listing under `key`: it is the listing of one of them, or it
/// lists one of them.
pub open spec fn invalidated(
    key: u128,
    listing: ListingView,
    storage_id: u64,
    removed: Set<u64>,
) -> bool {
    key_storage(key) == storage_id && (removed.contains(key_handle(key)) || lists_any(
        listing.entries,
        removed,
    ))
}

/// Whether `order` is an order in which invalidation reaches handles from
/// `handle`: each handle after the first is listed in the cached directory
/// of an earlier one, and every handle whose cached listing lists none of
/// the handles before it has all its children in `order`.
pub open spec fn invalidation_order(
    listings: Map<u128, ListingView>,
    storage_id: u64,
    handle: u64,
    order: Seq<u64>,
) -> bool {
    &&& reached_in_order(listings, storage_id, handle, order)
    &&& forall|i: int, c: u64|
        0 <= i < order.len() && #[trigger] child_of(listings, storage_id, order[i], c) && !lists_any(
            listings[object_key(storage_id, order[i])].entries,
            order.subrange(0, i).to_set(),
        ) ==> order.contains(c)
}

/// The closure bookkeeping of invalidation: a processed handle whose
/// listing listed none of the handles processed before it has all its
/// children processed or pending.
spec fn walk_partly_closed(
    listings: Map<u128, ListingView>,
    storage_id: u64,
    order: Seq<u64>,
    pending: Seq<u64>,
) -> bool {
    forall|i: int, c: u64|
        0 <= i < order.len() && #[trigger] child_of(listings, storage_id, order[i], c) && !lists_any(
            listings[object_key(storage_id, order[i])].entries,
            order.subrange(0, i).to_set(),
        ) ==> order.contains(c) || pending.contains(c)
}

proof fn lemma_walk_partly_closed_step(
    listings: Map<u128, ListingView>,
    storage_id: u64,
    order: Seq<u64>,
    pending: Seq<u64>,
    children: Seq<u64>,
)
    requires
        walk_partly_closed(listings, storage_id, order, pending),
        pending.len() > 0,
        !order.to_set().contains(pending.last()) && listings.contains_key(
            object_key(storage_id, pending.last()),
        ) && !lists_any(
            listings[object_key(storage_id, pending.last())].entries,
            order.to_set(),
        ) ==> forall|c: u64|
            #[trigger] child_of(listings, storage_id, pending.last(), c) ==> children.contains(c),
    ensures
        walk_partly_closed(
            listings,
            storage_id,
            if order.to_set().contains(pending.last()) {
                order
            } else {
                order.push(pending.last())
            },
            pending.drop_last() + children,
        ),
{
    let current = pending.last();
    let next = if order.to_set().contains(current) {
        order
    } else {
        order.push(current)
    };
    let rest = pending.drop_last() + children;
    assert forall|i: int, c: u64|
        0 <= i < next.len() && #[trigger] child_of(listings, storage_id, next[i], c) && !lists_any(
            listings[object_key(storage_id, next[i])].entries,
            next.subrange(0, i).to_set(),
        ) implies next.contains(c) || rest.contains(c) by {
        if pending.drop_last().contains(c) {
            let m = choose|m: int| 0 <= m < pending.drop_last().len() && pending.drop_last()[m] == c;
            assert(rest[m] == c);
        }
        if children.contains(c) {
            let t = choose|t: int| 0 <= t < children.len() && children[t] == c;
            assert(rest[pending.len() - 1 + t] == c);
        }
        if pending.contains(c) && c != current {
            let m = choose|m: int| 0 <= m < pending.len() && pending[m] == c;
            assert(m != pending.len() - 1);
            assert(pending.drop_last()[m] == c);
        }
        if c == current {
            if !order.to_set().contains(current) {
                assert(next[order.len() as int] == c);
            } else {
                assert(order.contains(c));
                let m = choose|m: int| 0 <= m < order.len() && order[m] == c;
                assert(next[m] == c);
            }
        }
        if order.contains(c) {
            let m = choose|m: int| 0 <= m < order.len() && order[m] == c;
            assert(next[m] == c);
        }
        if i < order.len() {
            assert(next[i] == order[i]);
            assert(next.subrange(0, i) =~= order.subrange(0, i));
        } else {
            assert(next.subrange(0, i) =~= order);
        }
    }
}

/// The handles of a sequence of entries.
pub open spec fn handles_of(entries: Seq<ObjectEntryView>) -> Seq<u64> {
    entries.map_values(|e: ObjectEntryView| e.handle)
}

/// Whether a listing loaded at `loaded_at` is still fresh at `now`.
pub open spec fn fresh_at(loaded_at: u64, now: u64) -> bool {
    (if now >= loaded_at {
        now - loaded_at
    } else {
        0
    }) <= DIRECTORY_CACHE_TTL_MS
}

/// Whether a listing loaded at `loaded_at` is still fresh at `now`.
pub fn is_cache_fresh(loaded_at: u64, now: u64) -> (r: bool)
    ensures
        r == fresh_at(loaded_at, now),
{
    now.saturating_sub(loaded_at) <= DIRECTORY_CACHE_TTL_MS
}

fn lists_handle(entries: &Vec<ObjectEntry>, h: u64) -> (r: bool)
    ensures
        r == listed(entries_view(entries@), h),
{
    let mut i: usize = 0;
    while i < entries.len()
        invariant
            i <= entries@.len(),
            forall|k: int| 0 <= k < i ==> entries@[k].handle != h,
        decreases entries.len() - i,
    {
        if entries[i].handle == h {
            proof {
                assert(entries_view(entries@)[i as int].handle == h);
            }
            return true;
        }
        i = i + 1;
    }
    proof {
        assert forall|k: int| 0 <= k < entries_view(entries@).len() implies entries_view(
            entries@,
        )[k].handle != h by {
            assert(entries_view(entries@)[k] == entries@[k]@);
        }
    }
    false
}

/// The keys of a map.
fn keys_of<V>(m: &HashMap<u128, V>) -> (v: Vec<u128>)
    ensures
        v@.to_set() == m@.dom(),
        v@.no_duplicates(),
{
    let mut v: Vec<u128> = Vec::new();
    for k in it: m.keys()
        invariant
            v@ == it.seq().take(it.index() as int).map_values(|r: &u128| *r),
    {
        v.push(*k);
    }
    proof {
        let ghost keys = vstd::std_specs::hash::spec_keys_iter(m).remaining();
        assert(v@ =~= keys.map_values(|r: &u128| *r));
        assert(keys.unref() =~= keys.map_values(|r: &u128| *r));
    }
    v
}

fn push_handles(pending: &mut Vec<u64>, entries: &Vec<ObjectEntry>)
    ensures
        final(pending)@ == old(pending)@ + handles_of(entries_view(entries@)),
{
    let ghost start = pending@;
    let ghost all = handles_of(entries_view(entries@));
    let mut i: usize = 0;
    while i < entries.len()
        invariant
            i <= entries@.len(),
            all == handles_of(entries_view(entries@)),
            pending@ == start + all.subrange(0, i as int),
        decreases entries.len() - i,
    {
        pending.push(entries[i].handle);
        i = i + 1;
        proof {
            assert(pending@ =~= start + all.subrange(0, i as int));
        }
    }
    proof {
        assert(all.subrange(0, entries@.len() as int) =~= all);
    }
}

fn vec_holds(v: &Vec<u64>, x: u64) -> (r: bool)
    ensures
        r == v@.contains(x),
{
    let mut i: usize = 0;
    while i < v.len()
        invariant
            i <= v@.len(),
            forall|m: int| 0 <= m < i ==> v@[m] != x,
        decreases v.len() - i,
    {
        if v[i] == x {
            return true;
        }
        i = i + 1;
    }
    false
}

/// Whether `key` is the object `handle` of storage `storage_id`.
spec fn object_holder(key: u128, handle: u64, storage_id: u64) -> bool {
    key_handle(key) == handle && key_storage(key) == storage_id
}

/// Whether `key` is a listing of storage `storage_id` that lists `handle`.
spec fn listing_holder(
    listings: Map<u128, ListingView>,
    key: u128,
    handle: u64,
    storage_id: u64,
) -> bool {
    key_storage(key) == storage_id && listed(listings[key].entries, handle)
}

proof fn lemma_contains_after_push<A>(before: Seq<A>, after: Seq<A>, pushed: bool, x: A)
    requires
        after == (if pushed {
            before.push(x)
        } else {
            before
        }),
    ensures
        forall|y: A| after.contains(y) <==> (before.contains(y) || (pushed && y == x)),
{
    if pushed {
        lemma_push_to_set(before, x);
        assert forall|y: A| after.contains(y) <==> (before.contains(y) || y == x) by {
            assert(after.to_set().contains(y) == after.contains(y));
            assert(before.to_set().contains(y) == before.contains(y));
        }
    }
}

fn entries_without(entries: &Vec<ObjectEntry>, h: u64) -> (r: Vec<ObjectEntry>)
    ensures
        entries_view(r@) == without_handle(entries_view(entries@), h),
{
    let ghost all = entries_view(entries@);
    let mut r: Vec<ObjectEntry> = Vec::new();
    let mut i: usize = 0;
    while i < entries.len()
        invariant
            i <= entries@.len(),
            all == entries_view(entries@),
            entries_view(r@) == without_handle(all.subrange(0, i as int), h),
        decreases entries.len() - i,
    {
        let ghost before = entries_view(r@);
        if entries[i].handle != h {
            r.push(entries[i].duplicate());
            proof {
                assert(entries_view(r@) =~= before.push(all[i as int]));
            }
        }
        i = i + 1;
        proof {
            assert(all.subrange(0, i as int).drop_last() =~= all.subrange(0, i - 1));
            assert(all.subrange(0, i as int).last() == all[i - 1]);
        }
    }
    proof {
        assert(all.subrange(0, all.len() as int) =~= all);
    }
    r
}

/// What listing a directory takes: the cached entries when they are fresh;
/// the cached entries, with a background refresh to start when none runs
/// yet, when they are stale; a read from the device when none are cached.
pub enum ListPlan {
    Cached(Vec<ObjectEntry>),
    Stale(Vec<ObjectEntry>, Option<(u64, CancelToken)>),
    Fetch,
}

#[derive(Debug)]
struct CachedListing {
    loaded_at: u64,
    fully_loaded_at: u64,
    entries: Vec<ObjectEntry>,
}

/// A cached listing: when it was last validated, when it was last read in
/// full, and its entries.
pub struct ListingView {
    pub loaded_at: u64,
    pub fully_loaded_at: u64,
    pub entries: Seq<ObjectEntryView>,
}

impl View for CachedListing {
    type V = ListingView;

    closed spec fn view(&self) -> ListingView {
        ListingView {
            loaded_at: self.loaded_at,
            fully_loaded_at: self.fully_loaded_at,
            entries: entries_view(self.entries@),
        }
    }
}

#[derive(Debug)]
struct DirectoryRefresh {
    epoch: u64,
    cancel: CancelToken,
}

/// Cached listings and metadata of one device.
#[derive(Debug)]
pub struct DeviceCache {
    listings: HashMap<u128, CachedListing>,
    objects: HashMap<u128, ObjectEntry>,
    refreshing: HashMap<u128, DirectoryRefresh>,
    epoch: u64,
}

impl DeviceCache {
    /// The cached listings, by `dir_key`.
    pub closed spec fn listings(&self) -> Map<u128, ListingView> {
        self.listings@.map_values(|l: CachedListing| l@)
    }

    /// The cached objects, by `object_key`.
    pub closed spec fn objects(&self) -> Map<u128, ObjectEntryView> {
        self.objects@.map_values(|e: ObjectEntry| e@)
    }

    /// The epochs of the registered background refreshes, by `dir_key`.
    pub closed spec fn refreshing(&self) -> Map<u128, u64> {
        self.refreshing@.map_values(|r: DirectoryRefresh| r.epoch)
    }

    /// The current epoch.
    pub closed spec fn epoch(&self) -> u64 {
        self.epoch
    }

    /// Whether a refresh of `key` begun in `epoch` is still registered.
    pub open spec fn registered(&self, key: u128, epoch: u64) -> bool {
        self.epoch() == epoch && self.refreshing().contains_key(key) && self.refreshing()[key]
            == epoch
    }

    /// An empty cache in epoch zero.
    pub fn new() -> (r: Self)
        ensures
            r.listings() == Map::<u128, ListingView>::empty(),
            r.objects() == Map::<u128, ObjectEntryView>::empty(),
            r.refreshing() == Map::<u128, u64>::empty(),
            r.epoch() == 0,
    {
        let r = DeviceCache {
            listings: HashMap::new(),
            objects: HashMap::new(),
            refreshing: HashMap::new(),
            epoch: 0,
        };
        proof {
            assert(r.listings() =~= Map::<u128, ListingView>::empty());
            assert(r.objects() =~= Map::<u128, ObjectEntryView>::empty());
            assert(r.refreshing() =~= Map::<u128, u64>::empty());
        }
        r
    }

    /// The cached listing of `parent` in `storage_id`, and whether it is fresh at `now`.
    pub fn listing(&self, storage_id: u64, parent: Option<u64>, now: u64) -> (r: Option<
        (Vec<ObjectEntry>, bool),
    >)
        ensures
            ({
                let key = dir_key(storage_id, parent);
                match r {
                    None => !self.listings().contains_key(key),
                    Some((entries, fresh)) => {
                        &&& self.listings().contains_key(key)
                        &&& entries_view(entries@) == self.listings()[key].entries
                        &&& fresh == fresh_at(self.listings()[key].loaded_at, now)
                    },
                }
            }),
    {
        let key = make_dir_key(storage_id, parent);
        match self.listings.get(&key) {
            Some(cached) => Some(
                (duplicate_entries(&cached.entries), is_cache_fresh(cached.loaded_at, now)),
            ),
            None => None,
        }
    }

    /// The cached metadata of `handle` in `storage_id`.
    pub fn object(&self, storage_id: u64, handle: u64) -> (r: Option<ObjectEntry>)
        ensures
            ({
                let key = object_key(storage_id, handle);
                match r {
                    None => !self.objects().contains_key(key),
                    Some(entry) => self.objects().contains_key(key) && entry@
                        == self.objects()[key],
                }
            }),
    {
        let key = make_key(storage_id, handle);
        match self.objects.get(&key) {
            Some(entry) => Some(entry.duplicate()),
            None => None,
        }
    }

    /// Decides how a listing of `parent` in `storage_id` is answered at
    /// `now`, registering a background refresh when a stale listing is
    /// served and none is registered yet.
    pub fn plan_list(&mut self, storage_id: u64, parent: Option<u64>, now: u64) -> (r: ListPlan)
        ensures
            ({
                let key = dir_key(storage_id, parent);
                &&& final(self).listings() == old(self).listings()
                &&& final(self).objects() == old(self).objects()
                &&& final(self).epoch() == old(self).epoch()
                &&& if !old(self).listings().contains_key(key) {
                    &&& r is Fetch
                    &&& final(self).refreshing() == old(self).refreshing()
                } else if fresh_at(old(self).listings()[key].loaded_at, now) {
                    &&& r matches ListPlan::Cached(entries) && entries_view(entries@)
                        == old(self).listings()[key].entries
                    &&& final(self).refreshing() == old(self).refreshing()
                } else {
                    &&& r matches ListPlan::Stale(entries, refresh) && entries_view(entries@)
                        == old(self).listings()[key].entries && if old(
                        self,
                    ).refreshing().contains_key(key) {
                        &&& refresh is None
                        &&& final(self).refreshing() == old(self).refreshing()
                    } else {
                        &&& refresh matches Some((epoch, _)) && epoch == old(self).epoch()
                        &&& final(self).refreshing() == old(self).refreshing().insert(
                            key,
                            old(self).epoch(),
                        )
                    }
                }
            }),
    {
        match self.listing(storage_id, parent, now) {
            None => ListPlan::Fetch,
            Some((entries, true)) => ListPlan::Cached(entries),
            Some((entries, false)) => {
                let refresh = self.begin_refresh(storage_id, parent);
                ListPlan::Stale(entries, refresh)
            },
        }
    }

    /// Registers a background refresh of a listing under the current epoch,
    /// unless one is already registered; returns the epoch and the token
    /// that cancels the refresh.
    pub fn begin_refresh(&mut self, storage_id: u64, parent: Option<u64>) -> (r: Option<
        (u64, CancelToken),
    >)
        ensures
            ({
                let key = dir_key(storage_id, parent);
                &&& final(self).listings() == old(self).listings()
                &&& final(self).objects() == old(self).objects()
                &&& final(self).epoch() == old(self).epoch()
                &&& if old(self).refreshing().contains_key(key) {
                    &&& r is None
                    &&& final(self).refreshing() == old(self).refreshing()
                } else {
                    &&& r matches Some((epoch, _)) && epoch == old(self).epoch()
                    &&& final(self).refreshing() == old(self).refreshing().insert(
                        key,
                        old(self).epoch(),
                    )
                }
            }),
    {
        let key = make_dir_key(storage_id, parent);
        if self.refreshing.contains_key(&key) {
            None
        } else {
            let cancel = new_cancel_token();
            let handed_out = clone_cancel_token(&cancel);
            self.refreshing.insert(key, DirectoryRefresh { epoch: self.epoch, cancel });
            proof {
                assert(self.refreshing() =~= old(self).refreshing().insert(key, old(self).epoch));
            }
            Some((self.epoch, handed_out))
        }
    }

    /// Replaces the listing under `key` (whose storage is `key_storage(key)`)
    /// with `entries` loaded at `now`, keeping the object metadata in step.
    fn store_listing_inner(&mut self, key: u128, entries: Vec<ObjectEntry>, now: u64)
        ensures
            final(self).listings() == old(self).listings().insert(
                key,
                ListingView {
                    loaded_at: now,
                    fully_loaded_at: now,
                    entries: entries_view(entries@),
                },
            ),
            final(self).objects() == objects_after_listing(
                old(self).objects(),
                key_storage(key),
                if old(self).listings().contains_key(key) {
                    Some(old(self).listings()[key])
                } else {
                    None
                },
                entries_view(entries@),
            ),
            final(self).refreshing() == old(self).refreshing(),
            final(self).epoch() == old(self).epoch(),
    {
        let storage_id = storage_of_key(key);
        let ghost current = entries_view(entries@);
        let ghost old_objects = old(self).objects();
        let ghost previous_view = if old(self).listings().contains_key(key) {
            Some(old(self).listings()[key])
        } else {
            None
        };
        let removed = self.listings.remove(&key);
        let ghost listings_left = self.listings@;
        proof {
            assert(self.listings() =~= old(self).listings().remove(key));
        }
        let ghost kept = old_objects;
        match removed {
            Some(previous) => {
                let ghost prev = entries_view(previous.entries@);
                proof {
                    assert(previous_view == Some(previous@));
                }
                let mut i: usize = 0;
                while i < previous.entries.len()
                    invariant
                        i <= previous.entries@.len(),
                        prev == entries_view(previous.entries@),
                        current == entries_view(entries@),
                        storage_id == key_storage(key),
                        self.listings@ == listings_left,
                        self.refreshing@ == old(self).refreshing@,
                        self.epoch == old(self).epoch,
                        self.objects() == drop_unlisted(
                            old_objects,
                            storage_id,
                            prev.subrange(0, i as int),
                            current,
                        ),
                    decreases previous.entries.len() - i,
                {
                    let h = previous.entries[i].handle;
                    let ghost before = self.objects();
                    if !lists_handle(&entries, h) {
                        let k = make_key(storage_id, h);
                        self.objects.remove(&k);
                        proof {
                            assert(self.objects() =~= before.remove(k));
                        }
                    }
                    i = i + 1;
                    proof {
                        assert(prev.subrange(0, i as int).drop_last() =~= prev.subrange(
                            0,
                            i - 1,
                        ));
                        assert(prev.subrange(0, i as int).last() == prev[i - 1]);
                    }
                }
                proof {
                    assert(prev.subrange(0, prev.len() as int) =~= prev);
                    kept = self.objects();
                }
            },
            None => {
                proof {
                    assert(self.objects() == kept);
                }
            },
        }
        let mut i: usize = 0;
        while i < entries.len()
            invariant
                i <= entries@.len(),
                current == entries_view(entries@),
                storage_id == key_storage(key),
                self.listings@ == listings_left,
                self.refreshing@ == old(self).refreshing@,
                self.epoch == old(self).epoch,
                self.objects() == insert_entries(kept, storage_id, current.subrange(0, i as int)),
            decreases entries.len() - i,
        {
            let k = make_key(storage_id, entries[i].handle);
            let ghost before = self.objects();
            let copy = entries[i].duplicate();
            self.objects.insert(k, copy);
            i = i + 1;
            proof {
                assert(self.objects() =~= before.insert(k, current[i - 1]));
                assert(current.subrange(0, i as int).drop_last() =~= current.subrange(0, i - 1));
                assert(current.subrange(0, i as int).last() == current[i - 1]);
            }
        }
        proof {
            assert(current.subrange(0, current.len() as int) =~= current);
        }
        self.listings.insert(
            key,
            CachedListing { loaded_at: now, fully_loaded_at: now, entries },
        );
        proof {
            assert(self.listings() =~= old(self).listings().insert(
                key,
                ListingView {
                    loaded_at: now,
                    fully_loaded_at: now,
                    entries: current,
                },
            ));
        }
    }

    /// Whether two caches hold the same listings, objects, refreshes and epoch.
    pub open spec fn same_state(&self, other: &DeviceCache) -> bool {
        &&& self.listings() == other.listings()
        &&& self.objects() == other.objects()
        &&& self.refreshing() == other.refreshing()
        &&& self.epoch() == other.epoch()
    }

    /// Cancels and forgets the refresh registered under `key`, if any.
    fn cancel_refresh(&mut self, key: u128)
        ensures
            final(self).refreshing() == old(self).refreshing().remove(key),
            final(self).listings() == old(self).listings(),
            final(self).objects() == old(self).objects(),
            final(self).epoch() == old(self).epoch(),
    {
        if let Some(refresh) = self.refreshing.remove(&key) {
            cancel_token(&refresh.cancel);
        }
        proof {
            assert(self.refreshing() =~= old(self).refreshing().remove(key));
        }
    }

    /// Cancels and forgets every registered refresh.
    fn cancel_refreshes(&mut self)
        ensures
            final(self).refreshing() == Map::<u128, u64>::empty(),
            final(self).listings() == old(self).listings(),
            final(self).objects() == old(self).objects(),
            final(self).epoch() == old(self).epoch(),
    {
        let keys = keys_of(&self.refreshing);
        let mut i: usize = 0;
        while i < keys.len()
            invariant
                i <= keys@.len(),
                self.refreshing@ == old(self).refreshing@,
                self.listings@ == old(self).listings@,
                self.objects@ == old(self).objects@,
                self.epoch == old(self).epoch,
            decreases keys.len() - i,
        {
            if let Some(refresh) = self.refreshing.get(&keys[i]) {
                cancel_token(&refresh.cancel);
            }
            i = i + 1;
        }
        self.refreshing.clear();
        proof {
            assert(self.refreshing() =~= Map::<u128, u64>::empty());
        }
    }

    /// Stores a listing read in full at `now`, cancelling any background
    /// refresh of the same directory.
    pub fn store_listing(
        &mut self,
        storage_id: u64,
        parent: Option<u64>,
        entries: Vec<ObjectEntry>,
        now: u64,
    )
        ensures
            ({
                let key = dir_key(storage_id, parent);
                &&& final(self).listings() == old(self).listings().insert(
                    key,
                    ListingView {
                        loaded_at: now,
                        fully_loaded_at: now,
                        entries: entries_view(entries@),
                    },
                )
                &&& final(self).objects() == objects_after_listing(
                    old(self).objects(),
                    storage_id,
                    if old(self).listings().contains_key(key) {
                        Some(old(self).listings()[key])
                    } else {
                        None
                    },
                    entries_view(entries@),
                )
                &&& final(self).refreshing() == old(self).refreshing().remove(key)
                &&& final(self).epoch() == old(self).epoch()
            }),
    {
        let key = make_dir_key(storage_id, parent);
        self.cancel_refresh(key);
        self.store_listing_inner(key, entries, now);
    }

    /// A finished refresh of the listing of `parent` in `storage_id` that
    /// was registered in `self`, giving `after` and the result `r`: the
    /// registration ends, and a listing that was read is stored (loaded at
    /// `now`) with `r` telling whether it differs from the cached one.
    pub open spec fn finished_refresh(
        &self,
        after: &DeviceCache,
        storage_id: u64,
        parent: Option<u64>,
        entries: Option<Vec<ObjectEntry>>,
        now: u64,
        r: bool,
    ) -> bool {
        let key = dir_key(storage_id, parent);
        &&& after.refreshing() == self.refreshing().remove(key)
        &&& after.epoch() == self.epoch()
        &&& match entries {
            None => {
                &&& !r
                &&& after.listings() == self.listings()
                &&& after.objects() == self.objects()
            },
            Some(list) => {
                &&& r == (!self.listings().contains_key(key)
                    || self.listings()[key].entries != entries_view(list@))
                &&& after.listings() == self.listings().insert(
                    key,
                    ListingView {
                        loaded_at: now,
                        fully_loaded_at: now,
                        entries: entries_view(list@),
                    },
                )
                &&& after.objects() == objects_after_listing(
                    self.objects(),
                    storage_id,
                    if self.listings().contains_key(key) {
                        Some(self.listings()[key])
                    } else {
                        None
                    },
                    entries_view(list@),
                )
            },
        }
    }

    /// Completes a background refresh begun in `epoch`, given whether its
    /// token reports cancellation. A refresh that is no longer registered,
    /// or was cancelled, changes nothing. Otherwise the registration ends
    /// and a listing that was read stores as `store_listing` would; the
    /// result tells whether the listing differs from the cached one.
    pub fn finish_refresh_given(
        &mut self,
        storage_id: u64,
        parent: Option<u64>,
        epoch: u64,
        entries: Option<Vec<ObjectEntry>>,
        now: u64,
        cancelled: bool,
    ) -> (r: bool)
        ensures
            ({
                let key = dir_key(storage_id, parent);
                &&& (!old(self).registered(key, epoch) || cancelled) ==> !r && final(self).same_state(
                    &*old(self),
                )
                &&& (old(self).registered(key, epoch) && !cancelled) ==> {
                    old(self).finished_refresh(&*final(self), storage_id, parent, entries, now, r)
                }
            }),
    {
        let key = make_dir_key(storage_id, parent);
        if !self.refresh_is_current_given(storage_id, parent, epoch, cancelled) {
            return false;
        }
        self.refreshing.remove(&key);
        proof {
            assert(self.refreshing() =~= old(self).refreshing().remove(key));
        }
        let entries = match entries {
            Some(entries) => entries,
            None => {
                return false;
            },
        };
        let changed = match self.listings.get(&key) {
            Some(cached) => !same_entries(&cached.entries, &entries),
            None => true,
        };
        self.store_listing_inner(key, entries, now);
        changed
    }


    /// Completes a background refresh begun in `epoch`: reads whether the
    /// registered refresh's token was cancelled and finishes as
    /// `finish_refresh_given` does with that answer. The token is shared
    /// with the task that runs the refresh, so either outcome is possible
    /// while the refresh is registered.
    pub fn finish_refresh(
        &mut self,
        storage_id: u64,
        parent: Option<u64>,
        epoch: u64,
        entries: Option<Vec<ObjectEntry>>,
        now: u64,
    ) -> (r: bool)
        ensures
            ({
                let key = dir_key(storage_id, parent);
                &&& !old(self).registered(key, epoch) ==> !r && final(self).same_state(&*old(self))
                &&& old(self).registered(key, epoch) ==> {
                    ||| !r && final(self).same_state(&*old(self))
                    ||| old(self).finished_refresh(&*final(self), storage_id, parent, entries, now, r)
                }
            }),
    {
        let cancelled = self.registered_cancelled(storage_id, parent, epoch);
        self.finish_refresh_given(storage_id, parent, epoch, entries, now, cancelled)
    }

    /// Whether the listing of `parent` in `storage_id` has `object_count`
    /// entries and was read in full less than five minutes before `now`.
    pub open spec fn count_still_valid(
        &self,
        storage_id: u64,
        parent: Option<u64>,
        object_count: usize,
        now: u64,
    ) -> bool {
        let key = dir_key(storage_id, parent);
        &&& self.listings().contains_key(key)
        &&& self.listings()[key].entries.len() == object_count
        &&& (if now >= self.listings()[key].fully_loaded_at {
            now - self.listings()[key].fully_loaded_at
        } else {
            0
        }) < DIRECTORY_FULL_REFRESH_INTERVAL_MS
    }

    /// Whether a background refresh may revalidate a listing from its
    /// object count alone, given whether its token reports cancellation:
    /// the refresh is registered and not cancelled, the count matches and
    /// the listing was read in full less than five minutes ago.
    pub fn can_count_validate_given(
        &self,
        storage_id: u64,
        parent: Option<u64>,
        epoch: u64,
        object_count: usize,
        now: u64,
        cancelled: bool,
    ) -> (r: bool)
        ensures
            r == (self.registered(dir_key(storage_id, parent), epoch) && !cancelled
                && self.count_still_valid(storage_id, parent, object_count, now)),
    {
        if !self.refresh_is_current_given(storage_id, parent, epoch, cancelled) {
            return false;
        }
        let key = make_dir_key(storage_id, parent);
        match self.listings.get(&key) {
            Some(cached) => cached.entries.len() == object_count && now.saturating_sub(
                cached.fully_loaded_at,
            ) < DIRECTORY_FULL_REFRESH_INTERVAL_MS,
            None => false,
        }
    }

    /// Whether a background refresh may revalidate a listing from its
    /// object count alone: reads whether the registered refresh's token was
    /// cancelled and answers as `can_count_validate_given` does with that
    /// answer. The token is shared with the task that runs the refresh.
    pub fn can_count_validate(
        &self,
        storage_id: u64,
        parent: Option<u64>,
        epoch: u64,
        object_count: usize,
        now: u64,
    ) -> (r: bool)
        ensures
            r ==> self.registered(dir_key(storage_id, parent), epoch) && self.count_still_valid(
                storage_id,
                parent,
                object_count,
                now,
            ),
            !self.count_still_valid(storage_id, parent, object_count, now) ==> !r,
    {
        let cancelled = self.registered_cancelled(storage_id, parent, epoch);
        self.can_count_validate_given(storage_id, parent, epoch, object_count, now, cancelled)
    }

    /// A finished count validation of the listing of `parent` in
    /// `storage_id` that was registered in `self`, giving `after` and the
    /// result `r`: the registration ends, and a cached listing counts as
    /// loaded at `now` (`r` tells whether there was one).
    pub open spec fn finished_count_validation(
        &self,
        after: &DeviceCache,
        storage_id: u64,
        parent: Option<u64>,
        now: u64,
        r: bool,
    ) -> bool {
        let key = dir_key(storage_id, parent);
        &&& after.refreshing() == self.refreshing().remove(key)
        &&& after.epoch() == self.epoch()
        &&& after.objects() == self.objects()
        &&& r == self.listings().contains_key(key)
        &&& after.listings() == if r {
            self.listings().insert(key, ListingView { loaded_at: now, ..self.listings()[key] })
        } else {
            self.listings()
        }
    }

    /// Completes a background refresh that revalidated a listing by its
    /// object count, given whether its token reports cancellation: a refresh
    /// that is no longer registered, or was cancelled, changes nothing;
    /// otherwise the listing counts as loaded at `now`.
    pub fn finish_count_validation_given(
        &mut self,
        storage_id: u64,
        parent: Option<u64>,
        epoch: u64,
        now: u64,
        cancelled: bool,
    ) -> (r: bool)
        ensures
            ({
                let key = dir_key(storage_id, parent);
                &&& (!old(self).registered(key, epoch) || cancelled) ==> !r && final(self).same_state(
                    &*old(self),
                )
                &&& (old(self).registered(key, epoch) && !cancelled) ==> old(
                    self,
                ).finished_count_validation(&*final(self), storage_id, parent, now, r)
            }),
    {
        let key = make_dir_key(storage_id, parent);
        if !self.refresh_is_current_given(storage_id, parent, epoch, cancelled) {
            return false;
        }
        self.refreshing.remove(&key);
        proof {
            assert(self.refreshing() =~= old(self).refreshing().remove(key));
        }
        match self.listings.remove(&key) {
            Some(cached) => {
                let CachedListing { loaded_at: _, fully_loaded_at, entries } = cached;
                self.listings.insert(key, CachedListing { loaded_at: now, fully_loaded_at, entries });
                proof {
                    assert(self.listings() =~= old(self).listings().insert(
                        key,
                        ListingView { loaded_at: now, ..old(self).listings()[key] },
                    ));
                }
                assert(old(self).finished_count_validation(&*self, storage_id, parent, now, true));
                true
            },
            None => {
                assert(self.listings() =~= old(self).listings());
                false
            },
        }
    }

    /// Completes a background refresh that revalidated a listing by its
    /// object count: reads whether the registered refresh's token was
    /// cancelled and finishes as `finish_count_validation_given` does with
    /// that answer. The token is shared with the task that runs the refresh.
    pub fn finish_count_validation(
        &mut self,
        storage_id: u64,
        parent: Option<u64>,
        epoch: u64,
        now: u64,
    ) -> (r: bool)
        ensures
            ({
                let key = dir_key(storage_id, parent);
                &&& !old(self).registered(key, epoch) ==> !r && final(self).same_state(&*old(self))
                &&& old(self).registered(key, epoch) ==> {
                    ||| !r && final(self).same_state(&*old(self))
                    ||| old(self).finished_count_validation(&*final(self), storage_id, parent, now, r)
                }
            }),
    {
        let cancelled = self.registered_cancelled(storage_id, parent, epoch);
        self.finish_count_validation_given(storage_id, parent, epoch, now, cancelled)
    }

    /// Removes the entries with handle `h` from every listing of storage
    /// `storage_id`; a listing that lost entries counts as loaded at `now`.
    fn drop_handle_from_listings(&mut self, storage_id: u64, h: u64, now: u64)
        ensures
            final(self).listings() == old(self).listings().map_entries(
                |k: u128, l: ListingView| shrunk_listing(k, l, storage_id, h, now),
            ),
            final(self).objects() == old(self).objects(),
            final(self).refreshing() == old(self).refreshing(),
            final(self).epoch() == old(self).epoch(),
    {
        let listing_keys = keys_of(&self.listings);
        let ghost listings0 = self.listings();
        let mut j: usize = 0;
        while j < listing_keys.len()
            invariant
                j <= listing_keys@.len(),
                listing_keys@.to_set() == listings0.dom(),
                listing_keys@.no_duplicates(),
                self.listings() == listings0.map_entries(
                    |k: u128, l: ListingView| if listing_keys@.subrange(0, j as int).contains(k) {
                        shrunk_listing(k, l, storage_id, h, now)
                    } else {
                        l
                    },
                ),
                self.objects@ == old(self).objects@,
                self.refreshing@ == old(self).refreshing@,
                self.epoch == old(self).epoch,
            decreases listing_keys.len() - j,
        {
            let k = listing_keys[j];
            let ghost before = self.listings();
            proof {
                assert(listing_keys@.to_set().contains(k));
                assert(!listing_keys@.subrange(0, j as int).contains(k)) by {
                    if listing_keys@.subrange(0, j as int).contains(k) {
                        let m = choose|m: int| 0 <= m < j && listing_keys@[m] == k;
                        assert(listing_keys@[m] == listing_keys@[j as int]);
                    }
                }
            }
            if storage_of_key(k) == storage_id {
                if let Some(cached) = self.listings.remove(&k) {
                    let kept = entries_without(&cached.entries, h);
                    let (loaded_at, fully_loaded_at) = if kept.len() != cached.entries.len() {
                        (now, now)
                    } else {
                        (cached.loaded_at, cached.fully_loaded_at)
                    };
                    self.listings.insert(
                        k,
                        CachedListing { loaded_at, fully_loaded_at, entries: kept },
                    );
                    proof {
                        assert(entries_view(kept@).len() == kept@.len());
                        assert(entries_view(cached.entries@).len() == cached.entries@.len());
                        assert(before[k] == cached@);
                        assert(key_storage(k) == storage_id);
                        assert(cached@.entries == entries_view(cached.entries@));
                        lemma_without_handle(cached@.entries, h);
                        let newview = ListingView {
                            loaded_at,
                            fully_loaded_at,
                            entries: entries_view(kept@),
                        };
                        assert(newview == shrunk_listing(k, cached@, storage_id, h, now));
                        assert(self.listings() =~= before.insert(k, newview));
                    }
                }
            }
            proof {
                assert(before.contains_key(k));
                if key_storage(k) != storage_id {
                    assert(shrunk_listing(k, before[k], storage_id, h, now) == before[k]);
                    assert(self.listings() =~= before);
                }
                assert(self.listings() =~= before.insert(
                    k,
                    shrunk_listing(k, before[k], storage_id, h, now),
                ));
                assert(before[k] == listings0[k]);
            }
            j = j + 1;
            proof {
                let prefix = listing_keys@.subrange(0, j as int);
                let prev = listing_keys@.subrange(0, j - 1);
                assert(prefix =~= prev.push(k));
                assert forall|x: u128| #[trigger] prefix.contains(x) <==> (prev.contains(x) || x == k) by {
                    if prefix.contains(x) {
                        let m = choose|m: int| 0 <= m < prefix.len() && prefix[m] == x;
                        if m < prev.len() {
                            assert(prev[m] == x);
                        }
                    }
                    if prev.contains(x) {
                        let m = choose|m: int| 0 <= m < prev.len() && prev[m] == x;
                        assert(prefix[m] == x);
                    }
                    if x == k {
                        assert(prefix[j - 1] == x);
                    }
                }
                assert(self.listings() =~= listings0.map_entries(
                    |k: u128, l: ListingView| if listing_keys@.subrange(0, j as int).contains(k) {
                        shrunk_listing(k, l, storage_id, h, now)
                    } else {
                        l
                    },
                ));
            }
        }
        proof {
            assert(listing_keys@.subrange(0, listing_keys@.len() as int) =~= listing_keys@);
        }
        proof {
            assert(listing_keys@.subrange(0, listing_keys@.len() as int) =~= listing_keys@);
            assert forall|key: u128| #[trigger] listings0.contains_key(key) implies
                listing_keys@.contains(key) by {
                assert(listing_keys@.to_set().contains(key));
            }
            assert(self.listings() =~= old(self).listings().map_entries(
                |k: u128, l: ListingView| shrunk_listing(k, l, storage_id, h, now),
            ));
        }
    }

    /// Drops every listing of storage `storage_id` that lists handle `h`.
    fn drop_listings_listing(&mut self, storage_id: u64, h: u64)
        ensures
            final(self).listings() == old(self).listings().filter_keys(
                |k: u128|
                    !(key_storage(k) == storage_id && listed(old(self).listings()[k].entries, h)),
            ),
            final(self).objects() == old(self).objects(),
            final(self).refreshing() == old(self).refreshing(),
            final(self).epoch() == old(self).epoch(),
    {
        let keys = keys_of(&self.listings);
        let ghost listings0 = self.listings();
        let mut j: usize = 0;
        while j < keys.len()
            invariant
                j <= keys@.len(),
                keys@.to_set() == listings0.dom(),
                keys@.no_duplicates(),
                listings0 == old(self).listings(),
                self.listings() == listings0.filter_keys(
                    |k: u128|
                        !(keys@.subrange(0, j as int).contains(k) && key_storage(k) == storage_id
                            && listed(listings0[k].entries, h)),
                ),
                self.objects@ == old(self).objects@,
                self.refreshing@ == old(self).refreshing@,
                self.epoch == old(self).epoch,
            decreases keys.len() - j,
        {
            let k = keys[j];
            let ghost before = self.listings();
            proof {
                assert(keys@.to_set().contains(k));
                assert(!keys@.subrange(0, j as int).contains(k)) by {
                    if keys@.subrange(0, j as int).contains(k) {
                        let m = choose|m: int| 0 <= m < j && keys@[m] == k;
                        assert(keys@[m] == keys@[j as int]);
                    }
                }
                assert(before.contains_key(k));
                assert(before[k] == listings0[k]);
            }
            let mut drop = false;
            if storage_of_key(k) == storage_id {
                if let Some(listing) = self.listings.get(&k) {
                    drop = lists_handle(&listing.entries, h);
                }
            }
            proof {
                assert(drop == (key_storage(k) == storage_id && listed(listings0[k].entries, h)));
            }
            if drop {
                self.listings.remove(&k);
            }
            j = j + 1;
            proof {
                let prefix = keys@.subrange(0, j as int);
                let prev = keys@.subrange(0, j - 1);
                assert(prefix =~= prev.push(k));
                lemma_push_to_set(prev, k);
                assert(prefix.to_set().contains(k));
                assert forall|x: u128| #[trigger] prefix.contains(x) <==> (prev.contains(x) || x == k) by {
                    assert(prefix.to_set().contains(x) == prefix.contains(x));
                    assert(prev.to_set().contains(x) == prev.contains(x));
                }
                assert(listings0.contains_key(k) ==> before.contains_key(k) || (prev.contains(k)
                    && key_storage(k) == storage_id && listed(listings0[k].entries, h)));
                if drop {
                    assert(self.listings() =~= before.remove(k));
                } else {
                    assert(self.listings() =~= before);
                }
                assert(self.listings() =~= listings0.filter_keys(
                    |x: u128|
                        !(keys@.subrange(0, j as int).contains(x) && key_storage(x) == storage_id
                            && listed(listings0[x].entries, h)),
                ));
            }
        }
        proof {
            assert(keys@.subrange(0, keys@.len() as int) =~= keys@);
            assert forall|x: u128| #[trigger] listings0.contains_key(x) implies keys@.contains(x) by {
                assert(keys@.to_set().contains(x));
            }
            assert(self.listings() =~= old(self).listings().filter_keys(
                |k: u128|
                    !(key_storage(k) == storage_id && listed(old(self).listings()[k].entries, h)),
            ));
        }
    }

    /// Records metadata reported by an object event (or read on demand):
    /// all refreshes are cancelled, the object replaces any cached object
    /// with its handle, and the listings are updated as `upserted_listing`
    /// describes.
    pub fn upsert_object(&mut self, entry: ObjectEntry, now: u64)
        ensures
            final(self).refreshing() == Map::<u128, u64>::empty(),
            final(self).epoch() == old(self).epoch(),
            final(self).objects() == old(self).objects().filter_keys(
                |k: u128| key_handle(k) != entry.handle,
            ).insert(object_key(entry.storage_id, entry.handle), entry@),
            final(self).listings() == old(self).listings().map_entries(
                |k: u128, l: ListingView| upserted_listing(k, l, entry@, now),
            ),
    {
        self.cancel_refreshes();
        let storage_id = entry.storage_id;
        let h = entry.handle;
        let object_keys = keys_of(&self.objects);
        let ghost objects0 = self.objects();
        let mut i: usize = 0;
        while i < object_keys.len()
            invariant
                i <= object_keys@.len(),
                object_keys@.to_set() == objects0.dom(),
                self.objects() == objects0.filter_keys(
                    |k: u128| !(key_handle(k) == h && object_keys@.subrange(0, i as int).contains(k)),
                ),
                self.listings() == old(self).listings(),
                self.refreshing() == Map::<u128, u64>::empty(),
                self.epoch == old(self).epoch,
            decreases object_keys.len() - i,
        {
            let k = object_keys[i];
            let ghost before = self.objects();
            let matches = (k % 0x1_0000_0000_0000_0000) as u64 == h;
            if matches {
                self.objects.remove(&k);
                proof {
                    assert(self.objects() =~= before.remove(k));
                }
            }
            i = i + 1;
            proof {
                let prefix = object_keys@.subrange(0, i as int);
                let prev = object_keys@.subrange(0, i - 1);
                assert(prefix =~= prev.push(k));
                assert forall|x: u128| #[trigger] prefix.contains(x) <==> (prev.contains(x) || x == k) by {
                    if prefix.contains(x) {
                        let m = choose|m: int| 0 <= m < prefix.len() && prefix[m] == x;
                        if m < prev.len() {
                            assert(prev[m] == x);
                        }
                    }
                    if prev.contains(x) {
                        let m = choose|m: int| 0 <= m < prev.len() && prev[m] == x;
                        assert(prefix[m] == x);
                    }
                    if x == k {
                        assert(prefix[i - 1] == x);
                    }
                }
                assert(matches == (key_handle(k) == h));
                assert(self.objects() =~= objects0.filter_keys(
                    |k: u128| !(key_handle(k) == h && object_keys@.subrange(0, i as int).contains(k)),
                ));
            }
        }
        proof {
            assert(object_keys@.subrange(0, object_keys@.len() as int) =~= object_keys@);
            assert(self.objects() =~= objects0.filter_keys(|k: u128| key_handle(k) != h)) by {
                assert forall|k: u128| objects0.contains_key(k) implies object_keys@.contains(k) by {
                    assert(object_keys@.to_set().contains(k));
                }
            }
        }
        let ghost listings0 = self.listings();
        self.drop_handle_from_listings(storage_id, h, now);
        let target = make_key(storage_id, entry.parent);
        let ghost shrunk_listings = self.listings();
        let removed = self.listings.remove(&target);
        match removed {
            Some(cached) => {
                let ghost cached_view = cached@;
                proof {
                    assert(shrunk_listings[target] == cached_view);
                }
                let mut entries = cached.entries;
                entries.push(entry.duplicate());
                proof {
                    assert(entries_view(entries@) =~= cached_view.entries.push(entry@));
                }
                self.listings.insert(
                    target,
                    CachedListing { loaded_at: now, fully_loaded_at: now, entries },
                );
                proof {
                    assert(self.listings() =~= shrunk_listings.insert(
                        target,
                        ListingView {
                            loaded_at: now,
                            fully_loaded_at: now,
                            entries: cached_view.entries.push(entry@),
                        },
                    ));
                }
            },
            None => {
                proof {
                    assert(self.listings() =~= shrunk_listings);
                }
            },
        }
        let k = make_key(storage_id, h);
        self.objects.insert(k, entry);
        proof {
            assert forall|key: u128| #[trigger] self.listings().contains_key(key) implies
                self.listings()[key] == upserted_listing(key, listings0[key], entry@, now) by {
                lemma_shrunk_entries(key, listings0[key], storage_id, h, now);
            }
            assert(self.listings() =~= old(self).listings().map_entries(
                |k: u128, l: ListingView| upserted_listing(k, l, entry@, now),
            ));
            assert(self.objects() =~= old(self).objects().filter_keys(
                |k: u128| key_handle(k) != h,
            ).insert(object_key(storage_id, h), entry@));
        }
    }

    /// Records metadata read on demand; the same as `upsert_object`.
    pub fn store_object(&mut self, entry: ObjectEntry, now: u64)
        ensures
            final(self).refreshing() == Map::<u128, u64>::empty(),
            final(self).epoch() == old(self).epoch(),
            final(self).objects() == old(self).objects().filter_keys(
                |k: u128| key_handle(k) != entry.handle,
            ).insert(object_key(entry.storage_id, entry.handle), entry@),
            final(self).listings() == old(self).listings().map_entries(
                |k: u128, l: ListingView| upserted_listing(k, l, entry@, now),
            ),
    {
        self.upsert_object(entry, now);
    }

    /// Forgets object `handle` of storage `storage_id` and everything below
    /// it in the cached listings, and removes them from every listing of the
    /// storage (a listing that lost entries counts as loaded at `now`). All
    /// refreshes are cancelled.
    pub fn remove_object(&mut self, storage_id: u64, handle: u64, now: u64)
        ensures
            final(self).refreshing() == Map::<u128, u64>::empty(),
            final(self).epoch() == old(self).epoch(),
            exists|removed: Set<u64>|
                {
                    &&& is_subtree(old(self).listings(), storage_id, handle, removed)
                    &&& final(self).objects() == old(self).objects().filter_keys(
                        |k: u128| !names_removed(k, storage_id, removed),
                    )
                    &&& final(self).listings() == old(self).listings().filter_keys(
                        |k: u128| !names_removed(k, storage_id, removed),
                    ).map_entries(
                        |k: u128, l: ListingView| pruned_listing(k, l, storage_id, removed, now),
                    )
                },
    {
        self.cancel_refreshes();
        let ghost listings0 = self.listings();
        let ghost objects0 = self.objects();
        let mut pending: Vec<u64> = Vec::new();
        pending.push(handle);
        let ghost mut order: Seq<u64> = Seq::empty();
        proof {
            assert(order.to_set() =~= Set::<u64>::empty());
            assert(self.objects() =~= objects0.filter_keys(
                |k: u128| !names_removed(k, storage_id, order.to_set()),
            ));
            assert forall|k: u128| #[trigger] listings0.contains_key(k) implies pruned_listing(
                k,
                listings0[k],
                storage_id,
                order.to_set(),
                now,
            ) == listings0[k] by {
                lemma_pruned_one_more(k, listings0[k], storage_id, order.to_set(), 0, now);
            }
            assert(self.listings() =~= listings0.filter_keys(
                |k: u128| !names_removed(k, storage_id, order.to_set()),
            ).map_entries(
                |k: u128, l: ListingView| pruned_listing(k, l, storage_id, order.to_set(), now),
            ));
            assert(pending@[0] == handle);
        }
        while pending.len() > 0
            invariant
                listings0 == old(self).listings(),
                objects0 == old(self).objects(),
                self.refreshing() == Map::<u128, u64>::empty(),
                self.epoch == old(self).epoch,
                walk_ok(listings0, storage_id, handle, order, pending@),
                walk_closed(listings0, storage_id, order.to_set(), pending@),
                self.objects() == objects0.filter_keys(
                    |k: u128| !names_removed(k, storage_id, order.to_set()),
                ),
                self.listings() == listings0.filter_keys(
                    |k: u128| !names_removed(k, storage_id, order.to_set()),
                ).map_entries(
                    |k: u128, l: ListingView| pruned_listing(k, l, storage_id, order.to_set(), now),
                ),
            decreases self.listings@.dom().len(), pending@.len(),
        {
            let ghost processed = order.to_set();
            let ghost pending_before = pending@;
            let current = pending.pop().unwrap();
            let ghost next = processed.insert(current);
            let key = make_key(storage_id, current);
            proof {
                lemma_key_parts(storage_id, current);
                assert(pending@ =~= pending_before.drop_last());
            }
            let ghost objects_before = self.objects();
            self.objects.remove(&key);
            proof {
                assert(self.objects() =~= objects_before.remove(key));
                assert forall|k: u128| #[trigger] names_removed(k, storage_id, next) <==> (
                names_removed(k, storage_id, processed) || k == key) by {
                    lemma_key_roundtrip(k);
                }
                assert(self.objects() =~= objects0.filter_keys(
                    |k: u128| !names_removed(k, storage_id, next),
                ));
            }
            let ghost listings_before = self.listings();
            let ghost dom_before = self.listings@.dom();
            let ghost mut children_handles: Seq<u64> = Seq::empty();
            proof {
                assert(listings_before.contains_key(key) <==> (listings0.contains_key(key)
                    && !processed.contains(current)));
            }
            let removed = self.listings.remove(&key);
            match removed {
                Some(children) => {
                    proof {
                        assert(listings_before.contains_key(key));
                        lemma_pruned_one_more(key, listings0[key], storage_id, processed, current, now);
                        assert(children@ == listings_before[key]);
                        children_handles = handles_of(entries_view(children.entries@));
                        let kept = without_handles(listings0[key].entries, processed);
                        assert(entries_view(children.entries@) == kept);
                        lemma_without_handles(listings0[key].entries, processed);
                        assert forall|t: int| 0 <= t < children_handles.len() implies child_of(
                            listings0,
                            storage_id,
                            current,
                            #[trigger] children_handles[t],
                        ) by {
                            assert(children_handles[t] == kept[t].handle);
                            assert(listings0[key].entries.contains(kept[t]));
                            let i = choose|i: int|
                                0 <= i < listings0[key].entries.len() && listings0[key].entries[i]
                                    == kept[t];
                            assert(listings0[key].entries[i].handle == children_handles[t]);
                        }
                        assert forall|c: u64|
                            #[trigger] child_of(listings0, storage_id, current, c) && !processed.contains(c)
                                implies children_handles.contains(c) by {
                            let i = choose|i: int|
                                0 <= i < listings0[key].entries.len()
                                    && listings0[key].entries[i].handle == c;
                            assert(kept.contains(listings0[key].entries[i]));
                            let t = choose|t: int| 0 <= t < kept.len() && kept[t]
                                == listings0[key].entries[i];
                            assert(children_handles[t] == c);
                        }
                    }
                    push_handles(&mut pending, &children.entries);
                },
                None => {
                    proof {
                        assert(!listings_before.contains_key(key));
                        assert(pending@ =~= pending_before.drop_last() + children_handles);
                    }
                },
            }
            proof {
                assert(pending@ =~= pending_before.drop_last() + children_handles);
                assert(self.listings() =~= listings_before.remove(key));
                assert(self.listings@.dom() =~= listings_before.dom().remove(key));
                assert(listings_before.dom() =~= dom_before);
                assert(dom_before.finite());
                if listings_before.contains_key(key) {
                    assert(dom_before.remove(key).len() == dom_before.len() - 1);
                } else {
                    assert(dom_before.remove(key) =~= dom_before);
                    assert(children_handles.len() == 0);
                }
                order = lemma_walk_step(
                    listings0,
                    storage_id,
                    handle,
                    order,
                    pending_before,
                    children_handles,
                );
                lemma_walk_closed_step(
                    listings0,
                    storage_id,
                    processed,
                    pending_before,
                    children_handles,
                );
                assert(order.to_set() =~= next);
            }
            let ghost dom_mid = self.listings@.dom();
            proof {
                assert(dom_mid =~= self.listings().dom());
            }
            self.drop_handle_from_listings(storage_id, current, now);
            proof {
                assert(self.listings@.dom() =~= self.listings().dom());
                assert(self.listings@.dom() =~= dom_mid);
                assert forall|k: u128| #[trigger] listings0.contains_key(k) implies shrunk_listing(
                    k,
                    pruned_listing(k, listings0[k], storage_id, processed, now),
                    storage_id,
                    current,
                    now,
                ) == pruned_listing(k, listings0[k], storage_id, next, now) by {
                    lemma_pruned_one_more(k, listings0[k], storage_id, processed, current, now);
                }
                assert(self.listings() =~= listings0.filter_keys(
                    |k: u128| !names_removed(k, storage_id, next),
                ).map_entries(
                    |k: u128, l: ListingView| pruned_listing(k, l, storage_id, next, now),
                ));
            }
        }
        proof {
            assert(pending@.len() == 0);
            assert(closed_under_children(listings0, storage_id, order.to_set()));
            assert(reached_in_order(listings0, storage_id, handle, order));
            assert(is_subtree(listings0, storage_id, handle, order.to_set()));
        }
    }

    /// Forgets object `handle` of storage `storage_id`, the cached listings
    /// below it and every listing of the storage that lists one of the
    /// forgotten objects. All refreshes are cancelled.
    pub fn invalidate_object(&mut self, storage_id: u64, handle: u64)
        ensures
            final(self).refreshing() == Map::<u128, u64>::empty(),
            final(self).epoch() == old(self).epoch(),
            exists|order: Seq<u64>|
                {
                    &&& invalidation_order(old(self).listings(), storage_id, handle, order)
                    &&& final(self).objects() == old(self).objects().filter_keys(
                        |k: u128| !names_removed(k, storage_id, order.to_set()),
                    )
                    &&& final(self).listings() == old(self).listings().filter_keys(
                        |k: u128|
                            !invalidated(k, old(self).listings()[k], storage_id, order.to_set()),
                    )
                },
    {
        self.cancel_refreshes();
        let ghost listings0 = self.listings();
        let ghost objects0 = self.objects();
        let mut pending: Vec<u64> = Vec::new();
        pending.push(handle);
        let ghost mut order: Seq<u64> = Seq::empty();
        proof {
            assert(order.to_set() =~= Set::<u64>::empty());
            assert(self.objects() =~= objects0.filter_keys(
                |k: u128| !names_removed(k, storage_id, order.to_set()),
            ));
            assert(self.listings() =~= listings0.filter_keys(
                |k: u128| !invalidated(k, listings0[k], storage_id, order.to_set()),
            ));
            assert(pending@[0] == handle);
        }
        while pending.len() > 0
            invariant
                listings0 == old(self).listings(),
                objects0 == old(self).objects(),
                self.refreshing() == Map::<u128, u64>::empty(),
                self.epoch == old(self).epoch,
                walk_ok(listings0, storage_id, handle, order, pending@),
                walk_partly_closed(listings0, storage_id, order, pending@),
                self.objects() == objects0.filter_keys(
                    |k: u128| !names_removed(k, storage_id, order.to_set()),
                ),
                self.listings() == listings0.filter_keys(
                    |k: u128| !invalidated(k, listings0[k], storage_id, order.to_set()),
                ),
            decreases self.listings@.dom().len(), pending@.len(),
        {
            let ghost processed = order.to_set();
            let ghost pending_before = pending@;
            let current = pending.pop().unwrap();
            let ghost next = processed.insert(current);
            let key = make_key(storage_id, current);
            proof {
                lemma_key_parts(storage_id, current);
                assert(pending@ =~= pending_before.drop_last());
            }
            let ghost objects_before = self.objects();
            self.objects.remove(&key);
            proof {
                assert(self.objects() =~= objects_before.remove(key));
                assert forall|k: u128| #[trigger] names_removed(k, storage_id, next) <==> (
                names_removed(k, storage_id, processed) || k == key) by {
                    lemma_key_roundtrip(k);
                }
                assert(self.objects() =~= objects0.filter_keys(
                    |k: u128| !names_removed(k, storage_id, next),
                ));
            }
            let ghost listings_before = self.listings();
            let ghost dom_before = self.listings@.dom();
            let ghost mut children_handles: Seq<u64> = Seq::empty();
            proof {
                assert(listings_before.contains_key(key) <==> (listings0.contains_key(key)
                    && !processed.contains(current) && !lists_any(
                    listings0[key].entries,
                    processed,
                )));
            }
            let removed = self.listings.remove(&key);
            match removed {
                Some(children) => {
                    proof {
                        assert(listings_before.contains_key(key));
                        assert(children@ == listings_before[key]);
                        assert(listings_before[key] == listings0[key]);
                        children_handles = handles_of(entries_view(children.entries@));
                        let entries0 = listings0[key].entries;
                        assert forall|t: int| 0 <= t < children_handles.len() implies child_of(
                            listings0,
                            storage_id,
                            current,
                            #[trigger] children_handles[t],
                        ) by {
                            assert(children_handles[t] == entries0[t].handle);
                        }
                        assert forall|c: u64| #[trigger]
                            child_of(listings0, storage_id, current, c) implies children_handles.contains(
                            c,
                        ) by {
                            let i = choose|i: int| 0 <= i < entries0.len() && entries0[i].handle == c;
                            assert(children_handles[i] == c);
                        }
                    }
                    push_handles(&mut pending, &children.entries);
                },
                None => {},
            }
            proof {
                assert(pending@ =~= pending_before.drop_last() + children_handles);
                assert(self.listings() =~= listings_before.remove(key));
                assert(self.listings@.dom() =~= listings_before.dom().remove(key));
                assert(listings_before.dom() =~= dom_before);
                assert(dom_before.finite());
                if listings_before.contains_key(key) {
                    assert(dom_before.remove(key).len() == dom_before.len() - 1);
                } else {
                    assert(dom_before.remove(key) =~= dom_before);
                    assert(children_handles.len() == 0);
                }
                lemma_walk_partly_closed_step(
                    listings0,
                    storage_id,
                    order,
                    pending_before,
                    children_handles,
                );
                order = lemma_walk_step(
                    listings0,
                    storage_id,
                    handle,
                    order,
                    pending_before,
                    children_handles,
                );
                assert(order.to_set() =~= next);
            }
            let ghost dom_mid = self.listings@.dom();
            let ghost listings_mid = self.listings();
            proof {
                assert(dom_mid =~= self.listings().dom());
            }
            self.drop_listings_listing(storage_id, current);
            proof {
                assert(self.listings@.dom().subset_of(dom_mid)) by {
                    assert forall|k: u128| #[trigger] self.listings@.dom().contains(k) implies dom_mid.contains(k) by {
                        assert(self.listings().contains_key(k));
                    }
                }
                vstd::set_lib::lemma_len_subset(self.listings@.dom(), dom_mid);
                assert forall|k: u128| #[trigger] invalidated(k, listings0[k], storage_id, next) <==> (
                invalidated(k, listings0[k], storage_id, processed) || k == key || (key_storage(k)
                    == storage_id && listed(listings0[k].entries, current))) by {
                    lemma_key_roundtrip(k);
                    let e = listings0[k].entries;
                    if lists_any(e, next) && !lists_any(e, processed) {
                        let i = choose|i: int| 0 <= i < e.len() && next.contains(e[i].handle);
                        assert(e[i].handle == current);
                    }
                    if listed(e, current) {
                        let i = choose|i: int| 0 <= i < e.len() && e[i].handle == current;
                        assert(next.contains(e[i].handle));
                    }
                    if lists_any(e, processed) {
                        let i = choose|i: int| 0 <= i < e.len() && processed.contains(e[i].handle);
                        assert(next.contains(e[i].handle));
                    }
                }
                assert(self.listings() =~= listings0.filter_keys(
                    |k: u128| !invalidated(k, listings0[k], storage_id, next),
                ));
            }
        }
        proof {
            assert(pending@.len() == 0);
            assert(reached_in_order(listings0, storage_id, handle, order));
            assert(invalidation_order(listings0, storage_id, handle, order));
        }
    }

    /// Whether the cache knows object `handle` in storage `storage_id`: it
    /// holds its metadata or a listing of that storage lists it.
    pub open spec fn holds_handle(&self, storage_id: u64, handle: u64) -> bool {
        ||| self.objects().contains_key(object_key(storage_id, handle))
        ||| exists|k: u128|
            #[trigger] self.listings().contains_key(k) && key_storage(k) == storage_id && listed(
                self.listings()[k].entries,
                handle,
            )
    }

    /// The storages in which the cache knows object `handle`.
    fn storages_holding(&self, handle: u64) -> (ids: Vec<u64>)
        ensures
            ids@.no_duplicates(),
            forall|s: u64| ids@.contains(s) <==> self.holds_handle(s, handle),
    {
        let mut ids: Vec<u64> = Vec::new();
        let object_keys = keys_of(&self.objects);
        let mut i: usize = 0;
        while i < object_keys.len()
            invariant
                i <= object_keys@.len(),
                object_keys@.to_set() == self.objects().dom(),
                ids@.no_duplicates(),
                forall|s: u64|
                    ids@.contains(s) <==> exists|m: int|
                        0 <= m < i && object_holder(object_keys@[m], handle, s),
            decreases object_keys.len() - i,
        {
            let k = object_keys[i];
            let s = storage_of_key(k);
            let matches = (k % 0x1_0000_0000_0000_0000) as u64 == handle;
            let ghost before = ids@;
            let mut push = false;
            if matches && !vec_holds(&ids, s) {
                ids.push(s);
                push = true;
            }
            i = i + 1;
            proof {
                assert(matches == (key_handle(k) == handle));
                lemma_contains_after_push(before, ids@, push, s);
                assert forall|x: u64| ids@.contains(x) <==> exists|m: int|
                    0 <= m < i && object_holder(object_keys@[m], handle, x) by {
                    if exists|m: int| 0 <= m < i && object_holder(object_keys@[m], handle, x) {
                        let m = choose|m: int| 0 <= m < i && object_holder(object_keys@[m], handle, x);
                        if m < i - 1 {
                            assert(before.contains(x));
                        }
                    }
                    if ids@.contains(x) && !before.contains(x) {
                        assert(object_holder(object_keys@[i - 1], handle, x));
                    }
                    if before.contains(x) {
                        let m = choose|m: int| 0 <= m < i - 1 && object_holder(object_keys@[m], handle, x);
                        assert(object_holder(object_keys@[m], handle, x));
                    }
                }
            }
        }
        let listing_keys = keys_of(&self.listings);
        let mut j: usize = 0;
        while j < listing_keys.len()
            invariant
                j <= listing_keys@.len(),
                listing_keys@.to_set() == self.listings().dom(),
                object_keys@.to_set() == self.objects().dom(),
                ids@.no_duplicates(),
                forall|s: u64|
                    ids@.contains(s) <==> (exists|m: int|
                        0 <= m < object_keys@.len() && object_holder(object_keys@[m], handle, s))
                        || exists|m: int|
                        0 <= m < j && listing_holder(self.listings(), listing_keys@[m], handle, s),
            decreases listing_keys.len() - j,
        {
            let k = listing_keys[j];
            let s = storage_of_key(k);
            let mut lists = false;
            proof {
                assert(listing_keys@.to_set().contains(k));
            }
            if let Some(listing) = self.listings.get(&k) {
                lists = lists_handle(&listing.entries, handle);
            }
            let ghost before = ids@;
            let mut push = false;
            if lists && !vec_holds(&ids, s) {
                ids.push(s);
                push = true;
            }
            j = j + 1;
            proof {
                assert(lists == listed(self.listings()[k].entries, handle));
                lemma_contains_after_push(before, ids@, push, s);
                assert forall|x: u64| ids@.contains(x) <==> ((exists|m: int|
                    0 <= m < object_keys@.len() && object_holder(object_keys@[m], handle, x))
                    || exists|m: int|
                    0 <= m < j && listing_holder(self.listings(), listing_keys@[m], handle, x)) by {
                    if exists|m: int|
                        0 <= m < j && listing_holder(self.listings(), listing_keys@[m], handle, x) {
                        let m = choose|m: int|
                            0 <= m < j && listing_holder(self.listings(), listing_keys@[m], handle, x);
                        if m < j - 1 {
                            assert(before.contains(x));
                        }
                    }
                    if ids@.contains(x) && !before.contains(x) {
                        assert(listing_holder(self.listings(), listing_keys@[j - 1], handle, x));
                    }
                    if before.contains(x) && !(exists|m: int|
                        0 <= m < object_keys@.len() && object_holder(object_keys@[m], handle, x)) {
                        let m = choose|m: int|
                            0 <= m < j - 1 && listing_holder(self.listings(), listing_keys@[m], handle, x);
                        assert(listing_holder(self.listings(), listing_keys@[m], handle, x));
                    }
                }
            }
        }
        proof {
            assert forall|s: u64| ids@.contains(s) <==> self.holds_handle(s, handle) by {
                lemma_key_parts(s, handle);
                if self.objects().contains_key(object_key(s, handle)) {
                    assert(object_keys@.to_set().contains(object_key(s, handle)));
                    let m = choose|m: int|
                        0 <= m < object_keys@.len() && object_keys@[m] == object_key(s, handle);
                    assert(object_holder(object_keys@[m], handle, s));
                }
                if exists|m: int| 0 <= m < object_keys@.len() && object_holder(object_keys@[m], handle, s) {
                    let m = choose|m: int|
                        0 <= m < object_keys@.len() && object_holder(object_keys@[m], handle, s);
                    lemma_key_roundtrip(object_keys@[m]);
                    assert(object_keys@.to_set().contains(object_keys@[m]));
                }
                if exists|k: u128|
                    #[trigger] self.listings().contains_key(k) && key_storage(k) == s && listed(
                        self.listings()[k].entries,
                        handle,
                    ) {
                    let k = choose|k: u128|
                        #[trigger] self.listings().contains_key(k) && key_storage(k) == s && listed(
                            self.listings()[k].entries,
                            handle,
                        );
                    assert(listing_keys@.to_set().contains(k));
                    let m = choose|m: int| 0 <= m < listing_keys@.len() && listing_keys@[m] == k;
                    assert(listing_holder(self.listings(), listing_keys@[m], handle, s));
                }
                if exists|m: int|
                    0 <= m < listing_keys@.len() && listing_holder(self.listings(), listing_keys@[m], handle, s) {
                    let m = choose|m: int|
                        0 <= m < listing_keys@.len() && listing_holder(
                            self.listings(),
                            listing_keys@[m],
                            handle,
                            s,
                        );
                    assert(listing_keys@.to_set().contains(listing_keys@[m]));
                    assert(self.listings().contains_key(listing_keys@[m]));
                }
            }
        }
        ids
    }

    /// Forgets object `handle` in every storage whose cache knows it, as
    /// `remove_object` does for each of them.
    pub fn remove_handle(&mut self, handle: u64, now: u64)
        ensures
            final(self).epoch() == old(self).epoch(),
            (forall|s: u64| !old(self).holds_handle(s, handle)) ==> final(self).same_state(
                &*old(self),
            ),
            (exists|s: u64| old(self).holds_handle(s, handle)) ==> final(self).refreshing()
                == Map::<u128, u64>::empty(),
            forall|s: u64| !final(self).holds_handle(s, handle),
            forall|k: u128|
                #[trigger] final(self).objects().contains_key(k) ==> old(self).objects().contains_key(
                    k,
                ) && final(self).objects()[k] == old(self).objects()[k],
            forall|k: u128|
                #[trigger] final(self).listings().contains_key(k) ==> old(self).listings().contains_key(k),
            forall|k: u128|
                #[trigger] old(self).objects().contains_key(k) && !old(self).holds_handle(
                    key_storage(k),
                    handle,
                ) ==> final(self).objects().contains_key(k),
            forall|k: u128|
                #[trigger] old(self).listings().contains_key(k) && !old(self).holds_handle(
                    key_storage(k),
                    handle,
                ) ==> final(self).listings().contains_key(k) && final(self).listings()[k] == old(
                    self,
                ).listings()[k],
    {
        let ids = self.storages_holding(handle);
        let mut i: usize = 0;
        while i < ids.len()
            invariant
                i <= ids@.len(),
                ids@.no_duplicates(),
                forall|s: u64| ids@.contains(s) <==> old(self).holds_handle(s, handle),
                self.epoch() == old(self).epoch(),
                i == 0 ==> self.same_state(&*old(self)),
                i > 0 ==> self.refreshing() == Map::<u128, u64>::empty(),
                forall|s: u64|
                    #[trigger] ids@.subrange(0, i as int).contains(s) ==> !self.holds_handle(s, handle),
                forall|k: u128|
                    #[trigger] self.objects().contains_key(k) ==> old(self).objects().contains_key(k)
                        && self.objects()[k] == old(self).objects()[k],
                forall|k: u128|
                    #[trigger] self.listings().contains_key(k) ==> old(self).listings().contains_key(
                        k,
                    ),
                forall|k: u128|
                    #[trigger] old(self).objects().contains_key(k) && !ids@.subrange(
                        0,
                        i as int,
                    ).contains(key_storage(k)) ==> self.objects().contains_key(k),
                forall|k: u128|
                    #[trigger] old(self).listings().contains_key(k) && !ids@.subrange(
                        0,
                        i as int,
                    ).contains(key_storage(k)) ==> self.listings().contains_key(k)
                        && self.listings()[k] == old(self).listings()[k],
            decreases ids.len() - i,
        {
            let s = ids[i];
            let ghost before_objects = self.objects();
            let ghost before_listings = self.listings();
            self.remove_object(s, handle, now);
            proof {
                let removed = choose|removed: Set<u64>|
                    {
                        &&& is_subtree(before_listings, s, handle, removed)
                        &&& self.objects() == before_objects.filter_keys(
                            |k: u128| !names_removed(k, s, removed),
                        )
                        &&& self.listings() == before_listings.filter_keys(
                            |k: u128| !names_removed(k, s, removed),
                        ).map_entries(
                            |k: u128, l: ListingView| pruned_listing(k, l, s, removed, now),
                        )
                    };
                let order = choose|order: Seq<u64>|
                    reached_in_order(before_listings, s, handle, order) && order.to_set() == removed;
                assert(removed.contains(handle)) by {
                    assert(order.to_set().contains(order[0]));
                }
                let prefix = ids@.subrange(0, i + 1);
                let prev = ids@.subrange(0, i as int);
                assert(prefix =~= prev.push(s));
                lemma_push_to_set(prev, s);
                assert forall|x: u64| #[trigger] prefix.contains(x) <==> (prev.contains(x) || x == s) by {
                    assert(prefix.to_set().contains(x) == prefix.contains(x));
                    assert(prev.to_set().contains(x) == prev.contains(x));
                }
                assert forall|k: u128| #[trigger] self.listings().contains_key(k) implies (
                key_storage(k) == s ==> !listed(self.listings()[k].entries, handle)) && (
                before_listings.contains_key(k) && (!listed(before_listings[k].entries, handle)
                    ==> !listed(self.listings()[k].entries, handle))) by {
                    lemma_without_handles(before_listings[k].entries, removed);
                    let e = self.listings()[k].entries;
                    if key_storage(k) == s && listed(e, handle) {
                        let t = choose|t: int| 0 <= t < e.len() && e[t].handle == handle;
                        assert(e == pruned_listing(k, before_listings[k], s, removed, now).entries);
                        lemma_pruned_one_more(k, before_listings[k], s, removed, 0, now);
                    }
                    if listed(e, handle) && key_storage(k) == s {
                        assert(false);
                    }
                    if listed(e, handle) && !listed(before_listings[k].entries, handle) {
                        let t = choose|t: int| 0 <= t < e.len() && e[t].handle == handle;
                        if key_storage(k) == s {
                            assert(false);
                        } else {
                            assert(e == before_listings[k].entries);
                        }
                    }
                }
                assert forall|x: u64| #[trigger] prefix.contains(x) implies !self.holds_handle(x, handle) by {
                    lemma_key_parts(x, handle);
                    if x == s {
                        assert(names_removed(object_key(s, handle), s, removed));
                    } else {
                        assert(prev.contains(x));
                        assert(!before_objects.contains_key(object_key(x, handle)) || !self.objects().contains_key(object_key(x, handle)));
                    }
                }
                assert forall|k: u128|
                    #[trigger] old(self).objects().contains_key(k) && !prefix.contains(
                        key_storage(k),
                    ) implies self.objects().contains_key(k) by {
                    assert(!prev.contains(key_storage(k)));
                    assert(before_objects.contains_key(k));
                    assert(!names_removed(k, s, removed));
                }
                assert forall|k: u128|
                    #[trigger] old(self).listings().contains_key(k) && !prefix.contains(
                        key_storage(k),
                    ) implies self.listings().contains_key(k) && self.listings()[k] == old(
                    self,
                ).listings()[k] by {
                    assert(!prev.contains(key_storage(k)));
                    assert(before_listings.contains_key(k));
                    assert(!names_removed(k, s, removed));
                    assert(pruned_listing(k, before_listings[k], s, removed, now)
                        == before_listings[k]);
                }
                assert(self.epoch() == old(self).epoch());
            }
            i = i + 1;
        }
        proof {
            assert(ids@.subrange(0, ids@.len() as int) =~= ids@);
            if forall|s: u64| !old(self).holds_handle(s, handle) {
                assert(ids@.len() == 0) by {
                    if ids@.len() > 0 {
                        assert(ids@.contains(ids@[0]));
                    }
                }
            }
            if exists|s: u64| old(self).holds_handle(s, handle) {
                let s = choose|s: u64| old(self).holds_handle(s, handle);
                assert(ids@.contains(s));
            }
            assert forall|s: u64| !self.holds_handle(s, handle) by {
                if !ids@.contains(s) {
                    assert(!old(self).holds_handle(s, handle));
                    lemma_key_parts(s, handle);
                    if self.objects().contains_key(object_key(s, handle)) {
                        assert(old(self).objects().contains_key(object_key(s, handle)));
                    }
                    if exists|k: u128|
                        #[trigger] self.listings().contains_key(k) && key_storage(k) == s && listed(
                            self.listings()[k].entries,
                            handle,
                        ) {
                        let k = choose|k: u128|
                            #[trigger] self.listings().contains_key(k) && key_storage(k) == s && listed(
                                self.listings()[k].entries,
                                handle,
                            );
                        assert(old(self).listings().contains_key(k));
                        assert(self.listings()[k] == old(self).listings()[k]);
                    }
                }
            }
        }
    }

    /// Forgets the listing of one directory and cancels its refresh.
    pub fn invalidate_directory(&mut self, storage_id: u64, parent: Option<u64>)
        ensures
            ({
                let key = dir_key(storage_id, parent);
                &&& final(self).listings() == old(self).listings().remove(key)
                &&& final(self).refreshing() == old(self).refreshing().remove(key)
                &&& final(self).objects() == old(self).objects()
                &&& final(self).epoch() == old(self).epoch()
            }),
    {
        let key = make_dir_key(storage_id, parent);
        self.cancel_refresh(key);
        self.listings.remove(&key);
        proof {
            assert(self.listings() =~= old(self).listings().remove(key));
        }
    }

    /// Forgets everything and starts a new epoch, so that refreshes begun
    /// before can no longer store their results.
    pub fn clear(&mut self)
        ensures
            final(self).listings() == Map::<u128, ListingView>::empty(),
            final(self).objects() == Map::<u128, ObjectEntryView>::empty(),
            final(self).refreshing() == Map::<u128, u64>::empty(),
            final(self).epoch() == (if old(self).epoch() == u64::MAX {
                0
            } else {
                (old(self).epoch() + 1) as u64
            }),
    {
        self.cancel_refreshes();
        self.listings.clear();
        self.objects.clear();
        self.epoch = self.epoch.wrapping_add(1);
        proof {
            assert(self.listings() =~= Map::<u128, ListingView>::empty());
            assert(self.objects() =~= Map::<u128, ObjectEntryView>::empty());
        }
    }

    /// Whether a refresh begun in `epoch` may still store its result, given
    /// whether its token reports cancellation: it must still be registered
    /// and not cancelled.
    pub fn refresh_is_current_given(
        &self,
        storage_id: u64,
        parent: Option<u64>,
        epoch: u64,
        cancelled: bool,
    ) -> (r: bool)
        ensures
            r == (self.registered(dir_key(storage_id, parent), epoch) && !cancelled),
    {
        let key = make_dir_key(storage_id, parent);
        if self.epoch != epoch || cancelled {
            return false;
        }
        match self.refreshing.get(&key) {
            Some(refresh) => refresh.epoch == epoch,
            None => false,
        }
    }

    /// Whether the token of the refresh registered under the listing of
    /// `parent` in `storage_id` in `epoch` reports cancellation; `false`,
    /// without reading a token, when no such refresh is registered.
    fn registered_cancelled(&self, storage_id: u64, parent: Option<u64>, epoch: u64) -> (c: bool)
        ensures
            !self.registered(dir_key(storage_id, parent), epoch) ==> !c,
    {
        let key = make_dir_key(storage_id, parent);
        if self.epoch != epoch {
            return false;
        }
        match self.refreshing.get(&key) {
            Some(refresh) => if refresh.epoch == epoch {
                token_is_cancelled(&refresh.cancel)
            } else {
                false
            },
            None => false,
        }
    }

    /// Whether a refresh begun in `epoch` may still store its result: reads
    /// whether the registered refresh's token was cancelled and answers as
    /// `refresh_is_current_given` does with that answer. The token is
    /// shared with the task that runs the refresh.
    pub fn refresh_is_current(&self, storage_id: u64, parent: Option<u64>, epoch: u64) -> (r:
        bool)
        ensures
            r ==> self.registered(dir_key(storage_id, parent), epoch),
    {
        let cancelled = self.registered_cancelled(storage_id, parent, epoch);
        self.refresh_is_current_given(storage_id, parent, epoch, cancelled)
    }
}

impl DeviceCache {
    /// A storage in which an object with `handle` is cached, if any.
    pub fn storage_of_handle(&self, handle: u64) -> (r: Option<u64>)
        ensures
            match r {
                Some(s) => self.objects().contains_key(object_key(s, handle)),
                None => forall|s: u64| !self.objects().contains_key(object_key(s, handle)),
            },
    {
        let keys = keys_of(&self.objects);
        let mut i: usize = 0;
        while i < keys.len()
            invariant
                keys@.to_set() == self.objects().dom(),
                i <= keys@.len(),
                forall|k: int| 0 <= k < i ==> key_handle(#[trigger] keys@[k]) != handle,
            decreases keys.len() - i,
        {
            let k = keys[i];
            if (k % 0x1_0000_0000_0000_0000) as u64 == handle {
                proof {
                    lemma_key_roundtrip(k);
                    assert(keys@.to_set().contains(k));
                }
                return Some(storage_of_key(k));
            }
            i = i + 1;
        }
        proof {
            assert forall|s: u64| !self.objects().contains_key(object_key(s, handle)) by {
                lemma_key_parts(s, handle);
                if self.objects().contains_key(object_key(s, handle)) {
                    assert(keys@.to_set().contains(object_key(s, handle)));
                    let m = choose|m: int| 0 <= m < keys@.len() && keys@[m] == object_key(s, handle);
                    assert(key_handle(keys@[m]) == handle);
                }
            }
        }
        None
    }
}

impl Default for DeviceCache {
    fn default() -> (r: Self)
        ensures
            r.listings() == Map::<u128, ListingView>::empty(),
            r.objects() == Map::<u128, ObjectEntryView>::empty(),
            r.refreshing() == Map::<u128, u64>::empty(),
            r.epoch() == 0,
    {
        DeviceCache::new()
    }
}

/// Once a subtree is removed, neither the object nor its listing is cached,
/// and no listing of the storage lists anything of the subtree.
pub proof fn law_removed_subtree_is_gone(
    listings: Map<u128, ListingView>,
    objects: Map<u128, ObjectEntryView>,
    storage_id: u64,
    handle: u64,
    removed: Set<u64>,
    now: u64,
)
    requires
        is_subtree(listings, storage_id, handle, removed),
    ensures
        ({
            let objects_after = objects.filter_keys(|k: u128| !names_removed(k, storage_id, removed));
            let listings_after = listings.filter_keys(
                |k: u128| !names_removed(k, storage_id, removed),
            ).map_entries(|k: u128, l: ListingView| pruned_listing(k, l, storage_id, removed, now));
            &&& !objects_after.contains_key(object_key(storage_id, handle))
            &&& !listings_after.contains_key(dir_key(storage_id, Some(handle)))
            &&& forall|k: u128|
                #[trigger] listings_after.contains_key(k) && key_storage(k) == storage_id
                    ==> !lists_any(listings_after[k].entries, removed)
        }),
{
    let order = choose|order: Seq<u64>|
        reached_in_order(listings, storage_id, handle, order) && order.to_set() == removed;
    assert(order.to_set().contains(order[0]));
    lemma_key_parts(storage_id, handle);
    let listings_after = listings.filter_keys(|k: u128| !names_removed(k, storage_id, removed)).map_entries(
        |k: u128, l: ListingView| pruned_listing(k, l, storage_id, removed, now),
    );
    assert forall|k: u128|
        #[trigger] listings_after.contains_key(k) && key_storage(k) == storage_id implies !lists_any(
        listings_after[k].entries,
        removed,
    ) by {
        lemma_pruned_one_more(k, listings[k], storage_id, removed, 0, now);
        lemma_without_handles(listings[k].entries, removed);
        let e = listings_after[k].entries;
        if lists_any(e, removed) {
            let i = choose|i: int| 0 <= i < e.len() && removed.contains(e[i].handle);
        }
    }
}

/// A refresh whose directory was invalidated (or whose cache was cleared)
/// is no longer registered, whatever epoch it was begun in.
pub proof fn law_invalidated_refresh_is_stale(
    before: &DeviceCache,
    after: &DeviceCache,
    key: u128,
    epoch: u64,
)
    requires
        after.refreshing() == before.refreshing().remove(key) || after.refreshing() == Map::<
            u128,
            u64,
        >::empty(),
    ensures
        !after.registered(key, epoch),
{
}

/// A listing stored at `now` reads back as the stored entries, fresh at `now`.
pub proof fn law_stored_listing_reads_back(
    listings: Map<u128, ListingView>,
    storage_id: u64,
    parent: Option<u64>,
    entries: Seq<ObjectEntryView>,
    now: u64,
)
    ensures
        ({
            let stored = listings.insert(
                dir_key(storage_id, parent),
                ListingView { loaded_at: now, fully_loaded_at: now, entries },
            );
            &&& stored.contains_key(dir_key(storage_id, parent))
            &&& stored[dir_key(storage_id, parent)].entries == entries
            &&& fresh_at(stored[dir_key(storage_id, parent)].loaded_at, now)
        }),
{
}

} // verus!

