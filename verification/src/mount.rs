//! The decisions around the per-user NFS mount.
use crate::error::Error;
use crate::i18n::Language;
use crate::model::MountState;
use crate::text::{chars_of, decimal, decimal_string, trim, trimmed};
use vstd::prelude::*;

verus! {

/// Whether the daemon may keep the mount it finds: only its own live mount
/// of the same port.
pub open spec fn reusable(state: MountState, requested_port: u16, path_is_mounted: bool) -> bool {
    path_is_mounted && (state matches MountState::Mounted { port, .. } && port == requested_port)
}

/// Whether the daemon may keep the mount it finds.
pub fn can_reuse_mount(state: &MountState, requested_port: u16, path_is_mounted: bool) -> (r: bool)
    ensures
        r == reusable(*state, requested_port, path_is_mounted),
{
    path_is_mounted && match state {
        MountState::Mounted { port, .. } => *port == requested_port,
        _ => false,
    }
}

/// What mounting takes.
#[derive(Debug, Clone, Copy, PartialEq, Eq, Structural)]
pub enum MountStep {
    /// The daemon's own mount of the same port stays.
    Reuse,
    /// A mount left by an earlier daemon is replaced.
    ReplaceThenMount,
    /// Nothing is mounted yet.
    Mount,
}

/// What mounting takes: keep the daemon's own live mount, replace a stale
/// one, or mount afresh.
pub fn mount_step(state: &MountState, requested_port: u16, path_is_mounted: bool) -> (r: MountStep)
    ensures
        r == (if reusable(*state, requested_port, path_is_mounted) {
            MountStep::Reuse
        } else if path_is_mounted {
            MountStep::ReplaceThenMount
        } else {
            MountStep::Mount
        }),
{
    if can_reuse_mount(state, requested_port, path_is_mounted) {
        MountStep::Reuse
    } else if path_is_mounted {
        MountStep::ReplaceThenMount
    } else {
        MountStep::Mount
    }
}

/// The options passed to `mount_nfs` for the server on `port`.
pub open spec fn mount_options_text(port: u16) -> Seq<char> {
    "vers=3,tcp,nolocks,localhost,port="@ + decimal(port as nat) + ",mountport="@ + decimal(
        port as nat,
    ) + ",rsize=131072,wsize=131072,actimeo=1,nodev,nosuid,soft,timeo=600,retrans=5"@
}

/// The options passed to `mount_nfs` for the server on `port`.
pub fn mount_options(port: u16) -> (r: String)
    ensures
        r@ == mount_options_text(port),
{
    let digits = decimal_string(port as u64);
    let mut s = String::from_str("vers=3,tcp,nolocks,localhost,port=");
    s.append(digits.as_str());
    s.append(",mountport=");
    s.append(digits.as_str());
    s.append(",rsize=131072,wsize=131072,actimeo=1,nodev,nosuid,soft,timeo=600,retrans=5");
    s
}

/// Whether `needle` occurs in `text`.
pub open spec fn occurs_in(text: Seq<char>, needle: Seq<char>) -> bool {
    exists|i: int| 0 <= i <= text.len() - needle.len() && #[trigger] text.subrange(i, i + needle.len()) == needle
}

/// Whether `needle` occurs in `text`.
pub fn contains_text(text: &str, needle: &str) -> (r: bool)
    ensures
        r == occurs_in(text@, needle@),
{
    let t = chars_of(text);
    let n = chars_of(needle);
    if n.len() > t.len() {
        proof {
            assert forall|i: int| 0 <= i <= t@.len() - n@.len() implies #[trigger] text@.subrange(
                i,
                i + needle@.len(),
            ) != needle@ by {}
        }
        return false;
    }
    let mut i: usize = 0;
    while i <= t.len() - n.len()
        invariant
            t@ == text@,
            n@ == needle@,
            n@.len() <= t@.len(),
            i <= t@.len() - n@.len() + 1,
            forall|k: int| 0 <= k < i ==> #[trigger] text@.subrange(k, k + needle@.len()) != needle@,
        decreases t.len() - n.len() + 1 - i,
    {
        let mut j: usize = 0;
        let mut same = true;
        let tl = t.len();
        while same && j < n.len()
            invariant
                tl == t@.len(),
                t@ == text@,
                n@ == needle@,
                i + n@.len() <= t@.len(),
                j <= n@.len(),
                forall|m: int| 0 <= m < j ==> t@[i + m] == n@[m],
                !same ==> j < n@.len() && t@[i + j] != n@[j as int],
            decreases n.len() - j + (if same { 1int } else { 0int }),
        {
            let k = i + j;
            if t[k] == n[j] {
                j = j + 1;
            } else {
                same = false;
            }
        }
        if j == n.len() {
            proof {
                assert(text@.subrange(i as int, i + needle@.len()) =~= needle@);
            }
            return true;
        }
        proof {
            assert(text@.subrange(i as int, i + needle@.len())[j as int] != needle@[j as int]);
        }
        i = i + 1;
    }
    false
}

/// The text `mount` prints for a file system mounted at `mount_point`.
pub open spec fn mount_table_needle(mount_point: Seq<char>) -> Seq<char> {
    " on "@ + mount_point + " "@
}

/// Whether the output of `mount` lists a file system mounted at `mount_point`.
pub fn lists_mount_point(mount_output: &str, mount_point: &str) -> (r: bool)
    ensures
        r == occurs_in(mount_output@, mount_table_needle(mount_point@)),
{
    let mut needle = String::from_str(" on ");
    needle.append(mount_point);
    needle.append(" ");
    contains_text(mount_output, needle.as_str())
}

/// Whether `state` is a mount of `path` served on `port`.
pub open spec fn mounted_at(state: MountState, path: Seq<char>, port: u16) -> bool {
    match state {
        MountState::Mounted { path: p, port: q } => p@ == path && q == port,
        _ => false,
    }
}

/// Whether `state` is a failed mount with `message`.
pub open spec fn failed_with(state: MountState, message: Seq<char>) -> bool {
    match state {
        MountState::Error { message: m } => m@ == message,
        _ => false,
    }
}

/// Whether `result` is an operation error with `detail`.
pub open spec fn operation_failed(result: Result<(), Error>, detail: Seq<char>) -> bool {
    match result {
        Err(Error::Operation(d)) => d@ == detail,
        _ => false,
    }
}

/// The state and result after `mount_nfs` ran: mounted at `mount_point` on
/// success; otherwise an error carrying what it printed, trimmed.
pub fn mount_outcome(
    succeeded: bool,
    mount_point: &str,
    port: u16,
    stderr: &str,
    language: Language,
) -> (r: (MountState, Result<(), Error>))
    ensures
        succeeded ==> (mounted_at(r.0, mount_point@, port) && r.1.is_ok()),
        !succeeded ==> (failed_with(r.0, trim(stderr@)) && operation_failed(
            r.1,
            language.mount_command_failed_text(trim(stderr@)),
        )),
{
    if succeeded {
        (MountState::Mounted { path: String::from_str(mount_point), port }, Ok(()))
    } else {
        let message = trimmed(stderr);
        let detail = language.mount_command_failed(message.as_str());
        (MountState::Error { message }, Err(Error::Operation(detail)))
    }
}

/// The state and result after the unmount commands ran: unmounted on
/// success; otherwise an error carrying what they printed, trimmed.
pub fn unmount_outcome(succeeded: bool, stderr: &str, language: Language) -> (r: (
    MountState,
    Result<(), Error>,
))
    ensures
        succeeded ==> (r.0 == MountState::Unmounted && r.1.is_ok()),
        !succeeded ==> (failed_with(r.0, trim(stderr@)) && operation_failed(
            r.1,
            language.unmount_failed_text(trim(stderr@)),
        )),
{
    if succeeded {
        (MountState::Unmounted, Ok(()))
    } else {
        let message = trimmed(stderr);
        let detail = language.unmount_failed(message.as_str());
        (MountState::Error { message }, Err(Error::Operation(detail)))
    }
}

} // verus!
