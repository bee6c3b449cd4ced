//! The bookkeeping of staged files: local copies that turn random NFS
//! writes into whole-object MTP uploads.
use crate::error::Error;
use crate::listing::{entries_of, lemma_name_order, lemma_onto, name_lt, placed, sort_by_name, sorted_by_name};
use crate::text::{chars_of, hex, str_equals, zero_padded};
use std::collections::HashMap;
use vstd::std_specs::iter::IteratorSpec;
use uuid::Uuid;
use vstd::prelude::*;

verus! {

broadcast use vstd::std_specs::hash::group_hash_axioms;

/// Whether a name belongs to the metadata Finder writes next to files,
/// which stays local and is never uploaded.
pub open spec fn finder_metadata_name(name: Seq<char>) -> bool {
    ||| name == ".DS_Store"@
    ||| (name.len() >= 2 && name[0] == '.' && name[1] == '_')
    ||| name == ".Spotlight-V100"@
    ||| name == ".Trashes"@
    ||| name == ".fseventsd"@
}

/// Whether a name belongs to Finder's metadata.
pub fn is_finder_metadata(name: &str) -> (r: bool)
    ensures
        r == finder_metadata_name(name@),
{
    let v = chars_of(name);
    let resource_fork = v.len() >= 2 && v[0] == '.' && v[1] == '_';
    str_equals(name, ".DS_Store") || resource_fork || str_equals(name, ".Spotlight-V100")
        || str_equals(name, ".Trashes") || str_equals(name, ".fseventsd")
}

/// How long, in seconds, a staged file left behind by an earlier run is
/// kept before it is cleaned up (seven days).
pub const FAILED_RETENTION_SECS: u64 = 604_800;

/// Whether a file found in the staging directory at start-up is removed:
/// a regular file whose age (seconds and nanoseconds since it was last
/// modified, when known) exceeds the retention period.
pub fn is_expired_leftover(age: Option<(u64, u32)>, is_file: bool) -> (r: bool)
    ensures
        r == (is_file && match age {
            Some((secs, nanos)) => secs > FAILED_RETENTION_SECS || (secs == FAILED_RETENTION_SECS
                && nanos > 0),
            None => false,
        }),
{
    let old_enough = match age {
        Some((secs, nanos)) => secs > FAILED_RETENTION_SECS || (secs == FAILED_RETENTION_SECS
            && nanos > 0),
        None => false,
    };
    old_enough && is_file
}

/// The state of a staged file that decides what committing it does.
#[derive(Debug, Clone, PartialEq, Eq)]
pub struct StagedRecord {
    pub device_key: String,
    pub generation: u64,
    pub storage_id: u64,
    pub parent: Option<u64>,
    pub name: String,
    /// The object the file was copied from.
    pub origin: Option<u64>,
    /// The object that last received its contents.
    pub remote: Option<u64>,
    /// Finder metadata stays local.
    pub local_only: bool,
    /// Written since the last upload.
    pub dirty: bool,
    /// Counts the changes.
    pub revision: u64,
}

/// `revision` advanced by one change (saturating).
pub open spec fn next_revision(revision: u64) -> u64 {
    if revision == u64::MAX {
        u64::MAX
    } else {
        (revision + 1) as u64
    }
}

/// A new staged file: dirty, at revision one, local when it is Finder
/// metadata.
pub fn created_record(
    device_key: String,
    generation: u64,
    storage_id: u64,
    parent: Option<u64>,
    name: String,
) -> (r: StagedRecord)
    ensures
        r == (StagedRecord {
            device_key,
            generation,
            storage_id,
            parent,
            name,
            origin: None,
            remote: None,
            local_only: finder_metadata_name(name@),
            dirty: true,
            revision: 1,
        }),
{
    let local_only = is_finder_metadata(name.as_str());
    StagedRecord {
        device_key,
        generation,
        storage_id,
        parent,
        name,
        origin: None,
        remote: None,
        local_only,
        dirty: true,
        revision: 1,
    }
}

/// A copy of object `handle` (whose parent is `parent`, 0 for the storage
/// root): clean, at revision one, uploaded back to the same object.
pub fn copied_record(
    device_key: String,
    generation: u64,
    storage_id: u64,
    handle: u64,
    parent: u64,
    name: String,
) -> (r: StagedRecord)
    ensures
        r == (StagedRecord {
            device_key,
            generation,
            storage_id,
            parent: if parent != 0 {
                Some(parent)
            } else {
                None
            },
            name,
            origin: Some(handle),
            remote: Some(handle),
            local_only: false,
            dirty: false,
            revision: 1,
        }),
{
    StagedRecord {
        device_key,
        generation,
        storage_id,
        parent: if parent != 0 {
            Some(parent)
        } else {
            None
        },
        name,
        origin: Some(handle),
        remote: Some(handle),
        local_only: false,
        dirty: false,
        revision: 1,
    }
}

impl StagedRecord {
    /// After a write (or a change of size): dirty, one revision further.
    pub fn touch(&mut self)
        ensures
            *final(self) == (StagedRecord {
                dirty: true,
                revision: next_revision(old(self).revision),
                ..*old(self)
            }),
    {
        self.dirty = true;
        self.revision = self.revision.saturating_add(1);
    }

    /// After a rename into `parent` under `name`: local when the new name
    /// is Finder metadata, dirty, one revision further.
    pub fn rename(&mut self, parent: Option<u64>, name: String)
        ensures
            *final(self) == (StagedRecord {
                parent,
                name,
                local_only: finder_metadata_name(name@),
                dirty: true,
                revision: next_revision(old(self).revision),
                ..*old(self)
            }),
    {
        self.local_only = is_finder_metadata(name.as_str());
        self.parent = parent;
        self.name = name;
        self.dirty = true;
        self.revision = self.revision.saturating_add(1);
    }

    /// The object that holds the file's contents on the device: the last
    /// upload, else the object it was copied from.
    pub open spec fn device_object(self) -> Option<u64> {
        match self.remote {
            Some(h) => Some(h),
            None => self.origin,
        }
    }

    /// What committing the file takes.
    pub fn commit_plan(&self) -> (r: CommitPlan)
        ensures
            r == (if !self.dirty {
                CommitPlan::Nothing
            } else if self.local_only {
                CommitPlan::MarkClean
            } else {
                match self.device_object() {
                    Some(h) => CommitPlan::Replace { old_handle: h },
                    None => CommitPlan::Upload,
                }
            }),
    {
        if !self.dirty {
            CommitPlan::Nothing
        } else if self.local_only {
            CommitPlan::MarkClean
        } else {
            match self.remote {
                Some(h) => CommitPlan::Replace { old_handle: h },
                None => match self.origin {
                    Some(h) => CommitPlan::Replace { old_handle: h },
                    None => CommitPlan::Upload,
                },
            }
        }
    }

    /// After a commit that left the contents in object `handle`: that
    /// object is now both the origin and the remote, and the file is clean.
    pub fn committed(&mut self, handle: u64)
        ensures
            *final(self) == (StagedRecord {
                origin: Some(handle),
                remote: Some(handle),
                dirty: false,
                ..*old(self)
            }),
    {
        self.remote = Some(handle);
        self.origin = Some(handle);
        self.dirty = false;
    }

    /// After committing Finder metadata, which stays local: clean.
    pub fn mark_clean(&mut self)
        ensures
            *final(self) == (StagedRecord { dirty: false, ..*old(self) }),
    {
        self.dirty = false;
    }

    /// Whether a commit scheduled at `revision` is still due: the file is
    /// dirty and has not changed since.
    pub fn commit_due(&self, revision: u64) -> (r: bool)
        ensures
            r == (self.dirty && self.revision == revision),
    {
        self.dirty && self.revision == revision
    }

    /// The device object that removing the file deletes, if any: none for
    /// Finder metadata.
    pub fn object_to_delete(&self) -> (r: Option<u64>)
        ensures
            r == (if self.local_only {
                None
            } else {
                self.device_object()
            }),
    {
        if self.local_only {
            return None;
        }
        match self.remote {
            Some(h) => Some(h),
            None => self.origin,
        }
    }

    /// Whether the file lives in directory `parent` of storage `storage_id`
    /// of the device `device_key` in connection `generation`.
    pub fn is_in(&self, device_key: &str, generation: u64, storage_id: u64, parent: Option<u64>) -> (r:
        bool)
        ensures
            r == (self.device_key@ == device_key@ && self.generation == generation && self.storage_id
                == storage_id && self.parent == parent),
    {
        let same_parent = match (self.parent, parent) {
            (None, None) => true,
            (Some(a), Some(b)) => a == b,
            _ => false,
        };
        str_equals(self.device_key.as_str(), device_key) && self.generation == generation
            && self.storage_id == storage_id && same_parent
    }
}

/// What committing a staged file takes.
#[derive(Debug, Clone, Copy, PartialEq, Eq, Structural)]
pub enum CommitPlan {
    /// It is clean.
    Nothing,
    /// It is Finder metadata, which stays local.
    MarkClean,
    /// Its contents replace object `old_handle`.
    Replace { old_handle: u64 },
    /// Its contents become a new object.
    Upload,
}

/// The 32 lower-case hexadecimal digits of an id.
pub open spec fn simple_id(id: u128) -> Seq<char> {
    zero_padded(hex(id as nat), 32)
}

/// `Uuid::from_u128(id).simple()` of the uuid crate, as text: the id in
/// its simple form, 32 lower-case hexadecimal digits.
#[verifier::external_body]
fn simple_uuid_text(id: u128) -> (r: String)
    ensures
        r@ == simple_id(id),
{
    Uuid::from_u128(id).simple().to_string()
}

/// The name under which a replacement is uploaded first.
pub fn upload_name(id: u128) -> (r: String)
    ensures
        r@ == ".mtpdrive-upload-"@ + simple_id(id),
{
    let mut r = String::from_str(".mtpdrive-upload-");
    let digits = simple_uuid_text(id);
    r.append(digits.as_str());
    r
}

/// The name the replaced object is moved to while the new one takes its
/// place.
pub fn backup_name(id: u128) -> (r: String)
    ensures
        r@ == ".mtpdrive-backup-"@ + simple_id(id),
{
    let mut r = String::from_str(".mtpdrive-backup-");
    let digits = simple_uuid_text(id);
    r.append(digits.as_str());
    r
}

/// Where the replacement of a device object by a staged file stands.
#[derive(Debug)]
pub enum ReplacePhase {
    /// The file is being uploaded under a temporary name.
    UploadingTemporary,
    /// The old object is being renamed to the backup name.
    RenamingOld { temporary: u64 },
    /// The upload is being renamed to the file's name.
    RenamingTemporary { temporary: u64 },
    /// The old object is being deleted; the upload has its place.
    DeletingOld { temporary: u64 },
    /// The upload could not take the name: the old object is renamed back.
    RestoringOld { temporary: u64, error: Error },
    /// The upload that could not take the name is deleted.
    DroppingTemporary { error: Error },
    /// The device cannot rename: the upload is deleted first.
    DroppingUnrenamed,
    /// The old object is deleted before the file is uploaded under its name.
    DeletingOldForUpload,
    /// The file is uploaded under its own name.
    UploadingFinal,
}

/// A replacement under way: the object replaced, the file's name, the
/// backup name and the phase.
#[derive(Debug)]
pub struct Replacement {
    pub old_handle: u64,
    pub name: String,
    pub backup: String,
    pub phase: ReplacePhase,
}

/// The device work a replacement asks for next, or its end.
#[derive(Debug)]
pub enum ReplaceAction {
    /// Upload the staged file under this name.
    Upload { name: String },
    /// Rename an object.
    Rename { handle: u64, name: String },
    /// Delete an object.
    Delete { handle: u64 },
    /// The replacement ended: the new object, or the error.
    Finish(Result<u64, Error>),
}

/// Starts replacing `old_handle`, which holds the file `name`: the file is
/// uploaded under `temporary` first.
pub fn start_replacement(old_handle: u64, name: String, temporary: String, backup: String) -> (r: (
    Replacement,
    ReplaceAction,
))
    ensures
        r.0 == (Replacement { old_handle, name, backup, phase: ReplacePhase::UploadingTemporary }),
        r.1 == (ReplaceAction::Upload { name: temporary }),
{
    (
        Replacement { old_handle, name, backup, phase: ReplacePhase::UploadingTemporary },
        ReplaceAction::Upload { name: temporary },
    )
}

/// The next step of a replacement, given how the last action went (the
/// uploaded object for an upload): the upload takes the old object's place
/// by two renames, and the old object is deleted. When the upload cannot
/// take the name, the old object gets its name back and the upload is
/// deleted. A device that cannot rename gets the old object deleted and the
/// file uploaded under its name. The results of the clean-up steps do not
/// matter.
pub open spec fn replace_transition(r: Replacement, outcome: Result<u64, Error>) -> (
    Replacement,
    ReplaceAction,
) {
    let old = r.old_handle;
    match r.phase {
        ReplacePhase::UploadingTemporary => match outcome {
            Ok(t) => (
                Replacement { phase: ReplacePhase::RenamingOld { temporary: t }, ..r },
                ReplaceAction::Rename { handle: old, name: r.backup },
            ),
            Err(e) => (r, ReplaceAction::Finish(Err(e))),
        },
        ReplacePhase::RenamingOld { temporary } => match outcome {
            Ok(_) => (
                Replacement { phase: ReplacePhase::RenamingTemporary { temporary }, ..r },
                ReplaceAction::Rename { handle: temporary, name: r.name },
            ),
            Err(_) => (
                Replacement { phase: ReplacePhase::DroppingUnrenamed, ..r },
                ReplaceAction::Delete { handle: temporary },
            ),
        },
        ReplacePhase::RenamingTemporary { temporary } => match outcome {
            Ok(_) => (
                Replacement { phase: ReplacePhase::DeletingOld { temporary }, ..r },
                ReplaceAction::Delete { handle: old },
            ),
            Err(e) => (
                Replacement { phase: ReplacePhase::RestoringOld { temporary, error: e }, ..r },
                ReplaceAction::Rename { handle: old, name: r.name },
            ),
        },
        ReplacePhase::DeletingOld { temporary } => (
            Replacement { phase: ReplacePhase::DeletingOld { temporary }, ..r },
            ReplaceAction::Finish(Ok(temporary)),
        ),
        ReplacePhase::RestoringOld { temporary, error } => (
            Replacement { phase: ReplacePhase::DroppingTemporary { error }, ..r },
            ReplaceAction::Delete { handle: temporary },
        ),
        ReplacePhase::DroppingTemporary { error } => (
            Replacement { phase: ReplacePhase::UploadingFinal, ..r },
            ReplaceAction::Finish(Err(error)),
        ),
        ReplacePhase::DroppingUnrenamed => (
            Replacement { phase: ReplacePhase::DeletingOldForUpload, ..r },
            ReplaceAction::Delete { handle: old },
        ),
        ReplacePhase::DeletingOldForUpload => match outcome {
            Ok(_) => (
                Replacement { phase: ReplacePhase::UploadingFinal, ..r },
                ReplaceAction::Upload { name: r.name },
            ),
            Err(e) => (
                Replacement { phase: ReplacePhase::DeletingOldForUpload, ..r },
                ReplaceAction::Finish(Err(e)),
            ),
        },
        ReplacePhase::UploadingFinal => (
            Replacement { phase: ReplacePhase::UploadingFinal, ..r },
            ReplaceAction::Finish(outcome),
        ),
    }
}

/// The next step of a replacement (see `replace_transition`).
pub fn replace_step(r: Replacement, outcome: Result<u64, Error>) -> (next: (Replacement, ReplaceAction))
    ensures
        next == replace_transition(r, outcome),
{
    let Replacement { old_handle, name, backup, phase } = r;
    match phase {
        ReplacePhase::UploadingTemporary => match outcome {
            Ok(t) => {
                let action = ReplaceAction::Rename { handle: old_handle, name: backup.clone() };
                (
                    Replacement {
                        old_handle,
                        name,
                        backup,
                        phase: ReplacePhase::RenamingOld { temporary: t },
                    },
                    action,
                )
            },
            Err(e) => (
                Replacement { old_handle, name, backup, phase: ReplacePhase::UploadingTemporary },
                ReplaceAction::Finish(Err(e)),
            ),
        },
        ReplacePhase::RenamingOld { temporary } => match outcome {
            Ok(_) => {
                let action = ReplaceAction::Rename { handle: temporary, name: name.clone() };
                (
                    Replacement {
                        old_handle,
                        name,
                        backup,
                        phase: ReplacePhase::RenamingTemporary { temporary },
                    },
                    action,
                )
            },
            Err(_) => (
                Replacement { old_handle, name, backup, phase: ReplacePhase::DroppingUnrenamed },
                ReplaceAction::Delete { handle: temporary },
            ),
        },
        ReplacePhase::RenamingTemporary { temporary } => match outcome {
            Ok(_) => (
                Replacement { old_handle, name, backup, phase: ReplacePhase::DeletingOld { temporary } },
                ReplaceAction::Delete { handle: old_handle },
            ),
            Err(e) => {
                let action = ReplaceAction::Rename { handle: old_handle, name: name.clone() };
                (
                    Replacement {
                        old_handle,
                        name,
                        backup,
                        phase: ReplacePhase::RestoringOld { temporary, error: e },
                    },
                    action,
                )
            },
        },
        ReplacePhase::DeletingOld { temporary } => (
            Replacement { old_handle, name, backup, phase: ReplacePhase::DeletingOld { temporary } },
            ReplaceAction::Finish(Ok(temporary)),
        ),
        ReplacePhase::RestoringOld { temporary, error } => (
            Replacement { old_handle, name, backup, phase: ReplacePhase::DroppingTemporary { error } },
            ReplaceAction::Delete { handle: temporary },
        ),
        ReplacePhase::DroppingTemporary { error } => (
            Replacement { old_handle, name, backup, phase: ReplacePhase::UploadingFinal },
            ReplaceAction::Finish(Err(error)),
        ),
        ReplacePhase::DroppingUnrenamed => (
            Replacement { old_handle, name, backup, phase: ReplacePhase::DeletingOldForUpload },
            ReplaceAction::Delete { handle: old_handle },
        ),
        ReplacePhase::DeletingOldForUpload => match outcome {
            Ok(_) => {
                let action = ReplaceAction::Upload { name: name.clone() };
                (
                    Replacement { old_handle, name, backup, phase: ReplacePhase::UploadingFinal },
                    action,
                )
            },
            Err(e) => (
                Replacement { old_handle, name, backup, phase: ReplacePhase::DeletingOldForUpload },
                ReplaceAction::Finish(Err(e)),
            ),
        },
        ReplacePhase::UploadingFinal => (
            Replacement { old_handle, name, backup, phase: ReplacePhase::UploadingFinal },
            ReplaceAction::Finish(outcome),
        ),
    }
}

/// How many more actions a replacement in `phase` can ask for at most.
pub open spec fn actions_left(phase: ReplacePhase) -> nat {
    match phase {
        ReplacePhase::UploadingTemporary => 5,
        ReplacePhase::RenamingOld { .. } => 4,
        ReplacePhase::RenamingTemporary { .. } => 2,
        ReplacePhase::DeletingOld { .. } => 0,
        ReplacePhase::RestoringOld { .. } => 1,
        ReplacePhase::DroppingTemporary { .. } => 0,
        ReplacePhase::DroppingUnrenamed => 2,
        ReplacePhase::DeletingOldForUpload => 1,
        ReplacePhase::UploadingFinal => 0,
    }
}

/// A replacement always ends: each step either finishes or moves to a phase
/// with fewer actions left, so after the first upload at most five more
/// actions come before the end.
pub proof fn law_replacement_ends(r: Replacement, outcome: Result<u64, Error>)
    ensures
        ({
            let (next, action) = replace_transition(r, outcome);
            action is Finish || actions_left(next.phase) < actions_left(r.phase)
        }),
{
}

/// A replacement succeeds only with the object that now holds the file under
/// its name: the upload once renamed to it (and the old object deleted), or
/// the file uploaded under its name after the old object was deleted.
pub proof fn law_replacement_succeeds_with_the_named_object(
    r: Replacement,
    outcome: Result<u64, Error>,
    handle: u64,
)
    requires
        replace_transition(r, outcome).1 == ReplaceAction::Finish(Ok::<u64, Error>(handle)),
    ensures
        (r.phase matches ReplacePhase::DeletingOld { temporary } && temporary == handle) || (
        r.phase is UploadingFinal && outcome == Ok::<u64, Error>(handle)),
{
}

/// The old object is deleted only once the upload holds the file's name,
/// or, on a device that cannot rename, once the upload has been dropped.
pub proof fn law_old_object_deleted_only_when_replaced(r: Replacement, outcome: Result<u64, Error>)
    requires
        replace_transition(r, outcome).1 == (ReplaceAction::Delete { handle: r.old_handle }),
        !(r.phase matches ReplacePhase::RenamingOld { temporary } && temporary == r.old_handle),
        !(r.phase matches ReplacePhase::RestoringOld { temporary, .. } && temporary == r.old_handle),
    ensures
        (r.phase is RenamingTemporary && outcome is Ok) || r.phase is DroppingUnrenamed,
{
}

/// The device object a staged copy stands for.
#[derive(Debug)]
pub struct RemoteIdentity {
    pub device_key: String,
    pub generation: u64,
    pub storage_id: u64,
    pub handle: u64,
}

/// A device object, with the device key as characters.
pub struct RemoteIdentityView {
    pub device_key: Seq<char>,
    pub generation: u64,
    pub storage_id: u64,
    pub handle: u64,
}

impl View for RemoteIdentity {
    type V = RemoteIdentityView;

    open spec fn view(&self) -> RemoteIdentityView {
        RemoteIdentityView {
            device_key: self.device_key@,
            generation: self.generation,
            storage_id: self.storage_id,
            handle: self.handle,
        }
    }
}

/// The staged file that stands for `identity`: the latest one recorded.
pub open spec fn origin_lookup(origins: Seq<(RemoteIdentityView, u128)>, identity: RemoteIdentityView) -> Option<
    u128,
>
    decreases origins.len(),
{
    if origins.len() == 0 {
        None
    } else if origins.last().0 == identity {
        Some(origins.last().1)
    } else {
        origin_lookup(origins.drop_last(), identity)
    }
}

proof fn lemma_origin_lookup_remove(
    origins: Seq<(RemoteIdentityView, u128)>,
    i: int,
    identity: RemoteIdentityView,
)
    requires
        0 <= i < origins.len(),
        origins[i].0 != identity,
    ensures
        origin_lookup(origins.remove(i), identity) == origin_lookup(origins, identity),
    decreases origins.len(),
{
    if i == origins.len() - 1 {
        assert(origins.remove(i) =~= origins.drop_last());
    } else {
        assert(origins.remove(i).drop_last() =~= origins.drop_last().remove(i));
        assert(origins.remove(i).last() == origins.last());
        lemma_origin_lookup_remove(origins.drop_last(), i, identity);
    }
}

/// Whether a staged file lives in directory `parent` of storage
/// `storage_id` of the device `device_key` in connection `generation`.
pub open spec fn in_directory(
    record: StagedRecord,
    device_key: Seq<char>,
    generation: u64,
    storage_id: u64,
    parent: Option<u64>,
) -> bool {
    record.device_key@ == device_key && record.generation == generation && record.storage_id
        == storage_id && record.parent == parent
}

fn same_identity(a: &RemoteIdentity, b: &RemoteIdentity) -> (r: bool)
    ensures
        r == (a@ == b@),
{
    str_equals(a.device_key.as_str(), b.device_key.as_str()) && a.generation == b.generation
        && a.storage_id == b.storage_id && a.handle == b.handle
}

/// Whether an entry of a directory's staged listing describes a staged
/// file of that directory: its name, id and whether it is a copy.
pub open spec fn listed_file(
    files: Map<u128, StagedRecord>,
    device_key: Seq<char>,
    generation: u64,
    storage_id: u64,
    parent: Option<u64>,
    entry: (Seq<char>, (u128, bool)),
) -> bool {
    let id = entry.1.0;
    &&& files.contains_key(id)
    &&& in_directory(files[id], device_key, generation, storage_id, parent)
    &&& entry.0 == files[id].name@
    &&& entry.1.1 == (files[id].origin is Some)
}

spec fn found_id(listed: Seq<(Seq<char>, (u128, bool))>, k: int) -> u128 {
    listed[k].1.0
}

/// Whether `listing` holds the staged files of a directory, each once, as
/// its name with its id and whether it is a copy of a device object,
/// ordered by name.
pub open spec fn lists_directory(
    files: Map<u128, StagedRecord>,
    device_key: Seq<char>,
    generation: u64,
    storage_id: u64,
    parent: Option<u64>,
    listing: Seq<(Seq<char>, (u128, bool))>,
) -> bool {
    &&& forall|i: int|
        0 <= i < listing.len() ==> listed_file(
            files,
            device_key,
            generation,
            storage_id,
            parent,
            #[trigger] listing[i],
        )
    &&& forall|id: u128|
        #[trigger] files.contains_key(id) && in_directory(
            files[id],
            device_key,
            generation,
            storage_id,
            parent,
        ) ==> exists|i: int| 0 <= i < listing.len() && listing[i].1.0 == id
    &&& forall|i: int, j: int| 0 <= i < j < listing.len() ==> listing[i].1.0 != listing[j].1.0
    &&& forall|i: int, j: int| 0 <= i < j < listing.len() ==> !name_lt(listing[j].0, listing[i].0)
}

/// The staged files by id, and for each device object copied, the staged
/// file that stands for it.
#[derive(Debug)]
pub struct StagingArea {
    files: HashMap<u128, StagedRecord>,
    origins: Vec<(RemoteIdentity, u128)>,
}

impl StagingArea {
    /// The staged files, by id.
    pub closed spec fn files(&self) -> Map<u128, StagedRecord> {
        self.files@
    }

    /// The copies recorded, oldest first (see `origin_lookup`).
    pub closed spec fn origins(&self) -> Seq<(RemoteIdentityView, u128)> {
        self.origins@.map_values(|e: (RemoteIdentity, u128)| (e.0@, e.1))
    }

    /// No staged files.
    pub fn new() -> (r: Self)
        ensures
            r.files() == Map::<u128, StagedRecord>::empty(),
            r.origins() == Seq::<(RemoteIdentityView, u128)>::empty(),
    {
        let r = StagingArea { files: HashMap::new(), origins: Vec::new() };
        proof {
            assert(r.origins() =~= Seq::<(RemoteIdentityView, u128)>::empty());
        }
        r
    }

    /// The staged file `id`.
    pub fn get(&self, id: u128) -> (r: Result<&StagedRecord, Error>)
        ensures
            match r {
                Ok(record) => self.files().contains_key(id) && *record == self.files()[id],
                Err(e) => !self.files().contains_key(id) && e is NotFound,
            },
    {
        match self.files.get(&id) {
            Some(record) => Ok(record),
            None => Err(Error::NotFound),
        }
    }

    /// Records a new file `name` staged as `id` in a directory; it is dirty
    /// and stays local when it is Finder metadata.
    pub fn create(
        &mut self,
        id: u128,
        device_key: String,
        generation: u64,
        storage_id: u64,
        parent: Option<u64>,
        name: String,
    )
        ensures
            final(self).files() == old(self).files().insert(
                id,
                StagedRecord {
                    device_key,
                    generation,
                    storage_id,
                    parent,
                    name,
                    origin: None,
                    remote: None,
                    local_only: finder_metadata_name(name@),
                    dirty: true,
                    revision: 1,
                },
            ),
            final(self).origins() == old(self).origins(),
    {
        let record = created_record(device_key, generation, storage_id, parent, name);
        self.files.insert(id, record);
    }

    /// The staged file that stands for a device object.
    pub fn for_remote(&self, device_key: &str, generation: u64, storage_id: u64, handle: u64) -> (r:
        Option<u128>)
        ensures
            r == origin_lookup(
                self.origins(),
                RemoteIdentityView { device_key: device_key@, generation, storage_id, handle },
            ),
    {
        let identity = RemoteIdentity {
            device_key: String::from_str(device_key),
            generation,
            storage_id,
            handle,
        };
        self.find_origin(&identity)
    }

    fn find_origin(&self, identity: &RemoteIdentity) -> (r: Option<u128>)
        ensures
            r == origin_lookup(self.origins(), identity@),
    {
        let ghost all = self.origins();
        let mut i = self.origins.len();
        proof {
            assert(all.subrange(0, i as int) =~= all);
        }
        while i > 0
            invariant
                all == self.origins(),
                i <= self.origins@.len(),
                origin_lookup(all, identity@) == origin_lookup(all.subrange(0, i as int), identity@),
            decreases i,
        {
            proof {
                let s = all.subrange(0, i as int);
                assert(s.drop_last() =~= all.subrange(0, i - 1));
                assert(s.last() == all[i - 1]);
                assert(all[i - 1] == (self.origins@[i - 1].0@, self.origins@[i - 1].1));
            }
            if same_identity(&self.origins[i - 1].0, identity) {
                return Some(self.origins[i - 1].1);
            }
            i = i - 1;
        }
        None
    }

    /// Records that the staged file `id` stands for `identity`.
    fn record_origin(&mut self, identity: RemoteIdentity, id: u128)
        ensures
            final(self).files() == old(self).files(),
            forall|other: RemoteIdentityView|
                origin_lookup(final(self).origins(), other) == if other == identity@ {
                    Some(id)
                } else {
                    origin_lookup(old(self).origins(), other)
                },
    {
        let ghost before = self.origins();
        let mut i = self.origins.len();
        let mut found: Option<usize> = None;
        while i > 0
            invariant
                before == self.origins(),
                i <= self.origins@.len(),
                found matches Some(k) ==> k < self.origins@.len() && before[k as int].0
                    == identity@,
            decreases i,
        {
            if same_identity(&self.origins[i - 1].0, &identity) {
                found = Some(i - 1);
                break;
            }
            i = i - 1;
        }
        match found {
            Some(k) => {
                self.origins.remove(k);
                proof {
                    assert(self.origins() =~= before.remove(k as int));
                    assert forall|other: RemoteIdentityView| other != identity@ implies origin_lookup(
                        self.origins(),
                        other,
                    ) == origin_lookup(before, other) by {
                        lemma_origin_lookup_remove(before, k as int, other);
                    }
                }
            },
            None => {},
        }
        let ghost middle = self.origins();
        self.origins.push((identity, id));
        proof {
            assert(self.origins().drop_last() =~= middle);
            assert(self.origins().last() == (identity@, id));
        }
    }

    /// Keeps a copy downloaded as `id` of the device object `handle` (whose
    /// parent and name are given), unless another copy of that object was
    /// kept meanwhile; returns the copy that stands for the object.
    pub fn stage_existing(
        &mut self,
        id: u128,
        device_key: String,
        generation: u64,
        storage_id: u64,
        handle: u64,
        parent: u64,
        name: String,
    ) -> (r: u128)
        ensures
            ({
                let identity = RemoteIdentityView {
                    device_key: device_key@,
                    generation,
                    storage_id,
                    handle,
                };
                match origin_lookup(old(self).origins(), identity) {
                    Some(existing) => r == existing && final(self).files() == old(self).files()
                        && final(self).origins() == old(self).origins(),
                    None => {
                        &&& r == id
                        &&& final(self).files() == old(self).files().insert(
                            id,
                            StagedRecord {
                                device_key,
                                generation,
                                storage_id,
                                parent: if parent != 0 {
                                    Some(parent)
                                } else {
                                    None
                                },
                                name,
                                origin: Some(handle),
                                remote: Some(handle),
                                local_only: false,
                                dirty: false,
                                revision: 1,
                            },
                        )
                        &&& forall|other: RemoteIdentityView|
                            origin_lookup(final(self).origins(), other) == if other == identity {
                                Some(id)
                            } else {
                                origin_lookup(old(self).origins(), other)
                            }
                    },
                }
            }),
    {
        let identity = RemoteIdentity {
            device_key: device_key.clone(),
            generation,
            storage_id,
            handle,
        };
        match self.find_origin(&identity) {
            Some(existing) => existing,
            None => {
                let record = copied_record(device_key, generation, storage_id, handle, parent, name);
                self.record_origin(identity, id);
                self.files.insert(id, record);
                id
            },
        }
    }

    /// Marks the staged file `id` as written: dirty, one revision further.
    pub fn touch(&mut self, id: u128) -> (r: Result<(), Error>)
        ensures
            final(self).origins() == old(self).origins(),
            match r {
                Ok(()) => old(self).files().contains_key(id) && final(self).files()
                    == old(self).files().insert(
                    id,
                    StagedRecord {
                        dirty: true,
                        revision: next_revision(old(self).files()[id].revision),
                        ..old(self).files()[id]
                    },
                ),
                Err(e) => !old(self).files().contains_key(id) && e is NotFound && final(self).files()
                    == old(self).files(),
            },
    {
        match self.files.remove(&id) {
            Some(mut record) => {
                record.touch();
                self.files.insert(id, record);
                proof {
                    assert(self.files@ =~= old(self).files@.insert(id, self.files@[id]));
                }
                Ok(())
            },
            None => Err(Error::NotFound),
        }
    }

    /// Moves the staged file `id` into `parent` under `name` (see
    /// `StagedRecord::rename`).
    pub fn rename(&mut self, id: u128, parent: Option<u64>, name: String) -> (r: Result<(), Error>)
        ensures
            final(self).origins() == old(self).origins(),
            match r {
                Ok(()) => old(self).files().contains_key(id) && final(self).files()
                    == old(self).files().insert(
                    id,
                    StagedRecord {
                        parent,
                        name,
                        local_only: finder_metadata_name(name@),
                        dirty: true,
                        revision: next_revision(old(self).files()[id].revision),
                        ..old(self).files()[id]
                    },
                ),
                Err(e) => !old(self).files().contains_key(id) && e is NotFound && final(self).files()
                    == old(self).files(),
            },
    {
        match self.files.remove(&id) {
            Some(mut record) => {
                record.rename(parent, name);
                self.files.insert(id, record);
                proof {
                    assert(self.files@ =~= old(self).files@.insert(id, self.files@[id]));
                }
                Ok(())
            },
            None => Err(Error::NotFound),
        }
    }

    /// After committing Finder metadata, which stays local: the file is clean.
    pub fn mark_clean(&mut self, id: u128) -> (r: Result<(), Error>)
        ensures
            final(self).origins() == old(self).origins(),
            match r {
                Ok(()) => old(self).files().contains_key(id) && final(self).files()
                    == old(self).files().insert(
                    id,
                    StagedRecord { dirty: false, ..old(self).files()[id] },
                ),
                Err(e) => !old(self).files().contains_key(id) && e is NotFound && final(self).files()
                    == old(self).files(),
            },
    {
        match self.files.remove(&id) {
            Some(mut record) => {
                record.mark_clean();
                self.files.insert(id, record);
                proof {
                    assert(self.files@ =~= old(self).files@.insert(id, self.files@[id]));
                }
                Ok(())
            },
            None => Err(Error::NotFound),
        }
    }

    /// After the staged file `id` was committed as the device object
    /// `handle`: the file is clean and stands for that object.
    pub fn committed(&mut self, id: u128, handle: u64) -> (r: Result<(), Error>)
        ensures
            match r {
                Ok(()) => {
                    let record = old(self).files()[id];
                    &&& old(self).files().contains_key(id)
                    &&& final(self).files() == old(self).files().insert(
                        id,
                        StagedRecord {
                            origin: Some(handle),
                            remote: Some(handle),
                            dirty: false,
                            ..record
                        },
                    )
                    &&& forall|other: RemoteIdentityView|
                        origin_lookup(final(self).origins(), other) == if other
                            == (RemoteIdentityView {
                            device_key: record.device_key@,
                            generation: record.generation,
                            storage_id: record.storage_id,
                            handle,
                        }) {
                            Some(id)
                        } else {
                            origin_lookup(old(self).origins(), other)
                        }
                },
                Err(e) => !old(self).files().contains_key(id) && e is NotFound && final(self).files()
                    == old(self).files() && final(self).origins() == old(self).origins(),
            },
    {
        match self.files.remove(&id) {
            Some(mut record) => {
                let identity = RemoteIdentity {
                    device_key: record.device_key.clone(),
                    generation: record.generation,
                    storage_id: record.storage_id,
                    handle,
                };
                record.committed(handle);
                self.files.insert(id, record);
                proof {
                    assert(self.files@ =~= old(self).files@.insert(id, self.files@[id]));
                }
                self.record_origin(identity, id);
                Ok(())
            },
            None => Err(Error::NotFound),
        }
    }

    /// Forgets the staged file `id`, and returns it.
    pub fn remove(&mut self, id: u128) -> (r: Result<StagedRecord, Error>)
        ensures
            final(self).files() == old(self).files().remove(id),
            final(self).origins() == old(self).origins(),
            match r {
                Ok(record) => old(self).files().contains_key(id) && record == old(self).files()[id],
                Err(e) => !old(self).files().contains_key(id) && e is NotFound,
            },
    {
        match self.files.remove(&id) {
            Some(record) => Ok(record),
            None => {
                proof {
                    assert(self.files@ =~= old(self).files@.remove(id));
                }
                Err(Error::NotFound)
            },
        }
    }

    fn file_ids(&self) -> (v: Vec<u128>)
        ensures
            v@.to_set() == self.files().dom(),
            v@.no_duplicates(),
    {
        let mut v: Vec<u128> = Vec::new();
        for k in it: self.files.keys()
            invariant
                v@ == it.seq().take(it.index() as int).map_values(|r: &u128| *r),
        {
            v.push(*k);
        }
        proof {
            let ghost keys = vstd::std_specs::hash::spec_keys_iter(&self.files).remaining();
            assert(v@ =~= keys.map_values(|r: &u128| *r));
            assert(keys.unref() =~= keys.map_values(|r: &u128| *r));
        }
        v
    }

    /// The staged files that are dirty.
    pub fn dirty_ids(&self) -> (r: Vec<u128>)
        ensures
            r@.no_duplicates(),
            forall|id: u128|
                #[trigger] r@.contains(id) <==> self.files().contains_key(id) && self.files()[id].dirty,
    {
        let ids = self.file_ids();
        let mut r: Vec<u128> = Vec::new();
        let mut i: usize = 0;
        while i < ids.len()
            invariant
                ids@.to_set() == self.files().dom(),
                ids@.no_duplicates(),
                i <= ids@.len(),
                r@.no_duplicates(),
                forall|id: u128|
                    #[trigger] r@.contains(id) <==> ids@.subrange(0, i as int).contains(id)
                        && self.files().contains_key(id) && self.files()[id].dirty,
            decreases ids.len() - i,
        {
            let id = ids[i];
            let ghost before = ids@.subrange(0, i as int);
            let ghost after = ids@.subrange(0, i + 1);
            proof {
                assert(ids@.to_set().contains(id));
                assert(after =~= before.push(id));
                assert(!before.contains(id)) by {
                    if before.contains(id) {
                        let k = choose|k: int| 0 <= k < before.len() && before[k] == id;
                        assert(ids@[k] == ids@[i as int]);
                    }
                }
                assert forall|x: u128| after.contains(x) <==> (before.contains(x) || x == id) by {
                    if after.contains(x) {
                        let k = choose|k: int| 0 <= k < after.len() && after[k] == x;
                        if k < before.len() {
                            assert(before[k] == x);
                        }
                    }
                    if before.contains(x) {
                        let k = choose|k: int| 0 <= k < before.len() && before[k] == x;
                        assert(after[k] == x);
                    }
                    if x == id {
                        assert(after[i as int] == x);
                    }
                }
            }
            let record = self.files.get(&id).unwrap();
            proof {
                assert(self.files()[id] == *record);
            }
            let ghost prev = r@;
            if record.dirty {
                let ghost old_r = r@;
                r.push(id);
                proof {
                    assert forall|x: u128| r@.contains(x) <==> (old_r.contains(x) || x == id) by {
                        if r@.contains(x) {
                            let k = choose|k: int| 0 <= k < r@.len() && r@[k] == x;
                            if k < old_r.len() {
                                assert(old_r[k] == x);
                            }
                        }
                        if old_r.contains(x) {
                            let k = choose|k: int| 0 <= k < old_r.len() && old_r[k] == x;
                            assert(r@[k] == x);
                        }
                        if x == id {
                            assert(r@[old_r.len() as int] == x);
                        }
                    }
                    assert(r@.no_duplicates()) by {
                        assert forall|a: int, b: int| 0 <= a < r@.len() && 0 <= b < r@.len() && a != b
                            implies r@[a] != r@[b] by {
                            if a == old_r.len() {
                                assert(old_r.contains(r@[b]));
                            } else if b == old_r.len() {
                                assert(old_r.contains(r@[a]));
                            } else {
                                assert(old_r[a] != old_r[b]);
                            }
                        }
                    }
                }
            }
            proof {
                assert forall|x: u128| #[trigger] r@.contains(x) <==> after.contains(x)
                    && self.files().contains_key(x) && self.files()[x].dirty by {
                    assert(after.contains(x) <==> (before.contains(x) || x == id));
                    if x == id {
                        assert(!prev.contains(id));
                        if record.dirty {
                            assert(r@.contains(id));
                        } else {
                            assert(r@ == prev);
                        }
                    } else {
                        assert(r@.contains(x) <==> prev.contains(x));
                    }
                }
            }
            i = i + 1;
        }
        proof {
            assert(ids@.subrange(0, ids@.len() as int) =~= ids@);
            assert forall|id: u128| self.files().contains_key(id) implies ids@.contains(id) by {
                assert(ids@.to_set().contains(id));
            }
        }
        r
    }

    /// The staged files in a directory, each once, as its name with its id
    /// and whether it is a copy of a device object, ordered by name.
    pub fn all_for_parent(
        &self,
        device_key: &str,
        generation: u64,
        storage_id: u64,
        parent: Option<u64>,
    ) -> (r: Vec<(String, (u128, bool))>)
        ensures
            lists_directory(self.files(), device_key@, generation, storage_id, parent, entries_of(r@)),
    {
        let ids = self.file_ids();
        let mut found: Vec<(String, (u128, bool))> = Vec::new();
        let mut i: usize = 0;
        while i < ids.len()
            invariant
                ids@.to_set() == self.files().dom(),
                ids@.no_duplicates(),
                i <= ids@.len(),
                forall|k: int|
                    0 <= k < found@.len() ==> listed_file(
                        self.files(),
                        device_key@,
                        generation,
                        storage_id,
                        parent,
                        #[trigger] entries_of(found@)[k],
                    ) && ids@.subrange(0, i as int).contains(found@[k].1.0),
                forall|a: int, b: int| 0 <= a < b < found@.len() ==> found@[a].1.0 != found@[b].1.0,
                forall|id: u128|
                    #[trigger] ids@.subrange(0, i as int).contains(id) && self.files().contains_key(id)
                        && in_directory(self.files()[id], device_key@, generation, storage_id, parent)
                        ==> exists|k: int| 0 <= k < found@.len() && found@[k].1.0 == id,
            decreases ids.len() - i,
        {
            let id = ids[i];
            let ghost before = ids@.subrange(0, i as int);
            let ghost after = ids@.subrange(0, i + 1);
            proof {
                assert(ids@.to_set().contains(id));
                assert(!before.contains(id)) by {
                    if before.contains(id) {
                        let k = choose|k: int| 0 <= k < before.len() && before[k] == id;
                        assert(ids@[k] == ids@[i as int]);
                    }
                }
                assert forall|x: u128| after.contains(x) <==> (before.contains(x) || x == id) by {
                    if after.contains(x) {
                        let k = choose|k: int| 0 <= k < after.len() && after[k] == x;
                        if k < before.len() {
                            assert(before[k] == x);
                        }
                    }
                    if before.contains(x) {
                        let k = choose|k: int| 0 <= k < before.len() && before[k] == x;
                        assert(after[k] == x);
                    }
                    if x == id {
                        assert(after[i as int] == x);
                    }
                }
            }
            let record = self.files.get(&id).unwrap();
            proof {
                assert(self.files()[id] == *record);
            }
            let ghost prev = found@;
            if record.is_in(device_key, generation, storage_id, parent) {
                found.push((record.name.clone(), (id, record.origin.is_some())));
                proof {
                    assert(found@[prev.len() as int].1.0 == id);
                    assert forall|k: int| 0 <= k < found@.len() implies listed_file(
                        self.files(),
                        device_key@,
                        generation,
                        storage_id,
                        parent,
                        #[trigger] entries_of(found@)[k],
                    ) && after.contains(found@[k].1.0) by {
                        if k < prev.len() {
                            assert(found@[k] == prev[k]);
                            assert(entries_of(found@)[k] == entries_of(prev)[k]);
                            assert(listed_file(
                                self.files(),
                                device_key@,
                                generation,
                                storage_id,
                                parent,
                                entries_of(prev)[k],
                            ));
                            assert(before.contains(prev[k].1.0));
                        } else {
                            assert(after[i as int] == id);
                        }
                    }
                    assert forall|a: int, b: int| 0 <= a < b < found@.len() implies found@[a].1.0
                        != found@[b].1.0 by {
                        if b == prev.len() {
                            assert(found@[a] == prev[a]);
                            assert(entries_of(prev)[a] == entries_of(found@)[a]);
                            assert(listed_file(
                                self.files(),
                                device_key@,
                                generation,
                                storage_id,
                                parent,
                                entries_of(prev)[a],
                            ));
                            assert(before.contains(prev[a].1.0));
                        } else {
                            assert(found@[a] == prev[a] && found@[b] == prev[b]);
                        }
                    }
                }
            } else {
                proof {
                    assert forall|k: int| 0 <= k < found@.len() implies listed_file(
                        self.files(),
                        device_key@,
                        generation,
                        storage_id,
                        parent,
                        #[trigger] entries_of(found@)[k],
                    ) && after.contains(found@[k].1.0) by {
                        assert(listed_file(
                            self.files(),
                            device_key@,
                            generation,
                            storage_id,
                            parent,
                            entries_of(found@)[k],
                        ));
                        assert(before.contains(found@[k].1.0));
                    }
                }
            }
            proof {
                assert forall|x: u128|
                    #[trigger] after.contains(x) && self.files().contains_key(x) && in_directory(
                        self.files()[x],
                        device_key@,
                        generation,
                        storage_id,
                        parent,
                    ) implies exists|k: int| 0 <= k < found@.len() && found@[k].1.0 == x by {
                    if x == id {
                        assert(found@[prev.len() as int].1.0 == id);
                    } else {
                        assert(before.contains(x));
                        let k = choose|k: int| 0 <= k < prev.len() && prev[k].1.0 == x;
                        assert(found@[k] == prev[k]);
                    }
                }
                assert(after == ids@.subrange(0, i + 1));
                assert forall|k: int| 0 <= k < found@.len() implies listed_file(
                    self.files(),
                    device_key@,
                    generation,
                    storage_id,
                    parent,
                    #[trigger] entries_of(found@)[k],
                ) && after.contains(found@[k].1.0) by {
                    if k < prev.len() {
                        assert(found@[k] == prev[k]);
                        assert(entries_of(found@)[k] == entries_of(prev)[k]);
                        assert(listed_file(
                            self.files(),
                            device_key@,
                            generation,
                            storage_id,
                            parent,
                            entries_of(prev)[k],
                        ));
                        assert(before.contains(prev[k].1.0));
                    } else {
                        assert(k == prev.len());
                        assert(found@[k].1.0 == id);
                        assert(after[i as int] == id);
                        assert(in_directory(self.files()[id], device_key@, generation, storage_id, parent));
                        assert(entries_of(found@)[k].0 == self.files()[id].name@);
                        assert(entries_of(found@)[k].1.1 == (self.files()[id].origin is Some));
                    }
                }
            }
            i = i + 1;
            proof {
                assert(after == ids@.subrange(0, i as int));
                assert forall|k: int| 0 <= k < found@.len() implies #[trigger] ids@.subrange(0, i as int).contains(found@[k].1.0) by {
                    assert(entries_of(found@)[k] == entries_of(found@)[k]);
                    assert(after.contains(found@[k].1.0));
                }
            }
        }
        let ghost listed = entries_of(found@);
        let sorted = sort_by_name(found);
        proof {
            assert(ids@.subrange(0, ids@.len() as int) =~= ids@);
            let order = choose|order: Seq<int>| sorted_by_name(listed, entries_of(sorted@), order);
            let out = entries_of(sorted@);
            lemma_onto(order, listed.len());
            assert forall|k: int| 0 <= k < listed.len() implies #[trigger] listed[k].1.0 == found_id(
                listed,
                k,
            ) by {}
            assert forall|i: int| 0 <= i < out.len() implies listed_file(
                self.files(),
                device_key@,
                generation,
                storage_id,
                parent,
                #[trigger] out[i],
            ) by {
                assert(out[i] == listed[order[i]]);
            }
            assert forall|id: u128|
                #[trigger] self.files().contains_key(id) && in_directory(
                    self.files()[id],
                    device_key@,
                    generation,
                    storage_id,
                    parent,
                ) implies exists|i: int| 0 <= i < out.len() && out[i].1.0 == id by {
                assert(ids@.to_set().contains(id));
                assert(ids@.contains(id));
                assert(ids@.subrange(0, ids@.len() as int).contains(id));
                let k0 = choose|k: int| 0 <= k < found@.len() && found@[k].1.0 == id;
                assert(listed[k0].1.0 == id);
                let k = choose|k: int| 0 <= k < listed.len() && listed[k].1.0 == id;
                assert(placed(order, k));
                let i = choose|i: int| 0 <= i < order.len() && order[i] == k;
                assert(out[i] == listed[k]);
            }
            assert forall|a: int, b: int| 0 <= a < b < out.len() implies out[a].1.0 != out[b].1.0 by {
                assert(out[a] == listed[order[a]]);
                assert(out[b] == listed[order[b]]);
                assert(order[a] != order[b]);
                if order[a] < order[b] {
                    assert(listed[order[a]].1.0 != listed[order[b]].1.0);
                } else {
                    assert(listed[order[b]].1.0 != listed[order[a]].1.0);
                }
            }
            assert forall|a: int, b: int| 0 <= a < b < out.len() implies !name_lt(
                out[b].0,
                out[a].0,
            ) by {
                lemma_name_order(out[a].0, out[b].0);
            }
        }
        sorted
    }

    /// A staged file named `name` in a directory, if there is one.
    pub fn find_child(
        &self,
        device_key: &str,
        generation: u64,
        storage_id: u64,
        parent: Option<u64>,
        name: &str,
    ) -> (r: Option<u128>)
        ensures
            match r {
                Some(id) => self.files().contains_key(id) && in_directory(
                    self.files()[id],
                    device_key@,
                    generation,
                    storage_id,
                    parent,
                ) && self.files()[id].name@ == name@,
                None => forall|id: u128|
                    #[trigger] self.files().contains_key(id) && in_directory(
                        self.files()[id],
                        device_key@,
                        generation,
                        storage_id,
                        parent,
                    ) ==> self.files()[id].name@ != name@,
            },
    {
        let ids = self.file_ids();
        let mut i: usize = 0;
        while i < ids.len()
            invariant
                ids@.to_set() == self.files().dom(),
                i <= ids@.len(),
                forall|k: int|
                    0 <= k < i ==> !(in_directory(
                        self.files()[#[trigger] ids@[k]],
                        device_key@,
                        generation,
                        storage_id,
                        parent,
                    ) && self.files()[ids@[k]].name@ == name@),
            decreases ids.len() - i,
        {
            let id = ids[i];
            proof {
                assert(ids@.to_set().contains(id));
            }
            let record = self.files.get(&id).unwrap();
            proof {
                assert(self.files()[id] == *record);
            }
            if record.is_in(device_key, generation, storage_id, parent) && str_equals(
                record.name.as_str(),
                name,
            ) {
                return Some(id);
            }
            i = i + 1;
        }
        proof {
            assert forall|id: u128|
                #[trigger] self.files().contains_key(id) && in_directory(
                    self.files()[id],
                    device_key@,
                    generation,
                    storage_id,
                    parent,
                ) implies self.files()[id].name@ != name@ by {
                assert(ids@.to_set().contains(id));
                let k = choose|k: int| 0 <= k < ids@.len() && ids@[k] == id;
            }
        }
        None
    }
}

/// The staged file that stands for `identity` once a copy downloaded as
/// `id` is offered: the copy recorded before, or else the new one.
pub open spec fn kept_copy(
    origins: Seq<(RemoteIdentityView, u128)>,
    identity: RemoteIdentityView,
    id: u128,
) -> u128 {
    match origin_lookup(origins, identity) {
        Some(existing) => existing,
        None => id,
    }
}

/// A device object is staged once: after a copy of it was kept (the
/// origins going from `before` to `after` as `stage_existing` records),
/// offering another copy of it keeps the first.
pub proof fn law_an_object_is_staged_once(
    before: Seq<(RemoteIdentityView, u128)>,
    after: Seq<(RemoteIdentityView, u128)>,
    identity: RemoteIdentityView,
    first: u128,
    second: u128,
)
    requires
        forall|other: RemoteIdentityView|
            origin_lookup(after, other) == if origin_lookup(before, identity) is None && other
                == identity {
                Some(first)
            } else {
                origin_lookup(before, other)
            },
    ensures
        kept_copy(after, identity, second) == kept_copy(before, identity, first),
{
    assert(origin_lookup(after, identity) == if origin_lookup(before, identity) is None {
        Some(first)
    } else {
        origin_lookup(before, identity)
    });
}

} // verus!
