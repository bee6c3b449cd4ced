//! The file-system locations MTPDrive uses.
use vstd::prelude::*;

verus! {

/// `base` joined with the relative component `component`, as `Path::join`
/// joins them.
pub open spec fn joined_path(base: Seq<char>, component: Seq<char>) -> Seq<char> {
    if base.len() == 0 {
        component
    } else if base.last() == '/' {
        base + component
    } else {
        base + "/"@ + component
    }
}

/// `base` joined with the relative component `component`.
pub fn join_path(base: &str, component: &str) -> (r: String)
    ensures
        r@ == joined_path(base@, component@),
{
    let n = base.unicode_len();
    let mut s = String::from_str(base);
    if n > 0 && base.get_char(n - 1) != '/' {
        s.append("/");
    }
    s.append(component);
    s
}

/// All file-system paths used by MTPDrive.
#[derive(Debug, Clone, PartialEq, Eq)]
pub struct AppPaths {
    pub support_dir: String,
    pub cache_dir: String,
    pub staging_dir: String,
    pub sidecar_dir: String,
    pub log_dir: String,
    pub socket_path: String,
    pub mount_point: String,
}

impl AppPaths {
    /// Isolated paths below `root`: support and cache directories, the
    /// staging, sidecar and log directories under them, the control socket
    /// and the mount point.
    pub fn under(root: &str) -> (r: Self)
        ensures
            r.support_dir@ == joined_path(root@, "support"@),
            r.cache_dir@ == joined_path(root@, "cache"@),
            r.staging_dir@ == joined_path(joined_path(root@, "cache"@), "staging"@),
            r.sidecar_dir@ == joined_path(joined_path(root@, "support"@), "sidecar"@),
            r.log_dir@ == joined_path(joined_path(root@, "support"@), "logs"@),
            r.socket_path@ == joined_path(joined_path(root@, "support"@), "control.sock"@),
            r.mount_point@ == joined_path(root@, "MTPDrive"@),
    {
        let support = join_path(root, "support");
        let cache = join_path(root, "cache");
        AppPaths {
            staging_dir: join_path(cache.as_str(), "staging"),
            sidecar_dir: join_path(support.as_str(), "sidecar"),
            log_dir: join_path(support.as_str(), "logs"),
            socket_path: join_path(support.as_str(), "control.sock"),
            mount_point: join_path(root, "MTPDrive"),
            support_dir: support,
            cache_dir: cache,
        }
    }

    /// The standard per-user macOS locations below the home directory
    /// `home`: support files in `Library/Application Support/MTPDrive`,
    /// caches in `Library/Caches/MTPDrive`, and the volume at `~/MTPDrive`.
    pub fn in_home(home: &str) -> (r: Self)
        ensures
            r.support_dir@ == joined_path(
                joined_path(joined_path(home@, "Library"@), "Application Support"@),
                "MTPDrive"@,
            ),
            r.cache_dir@ == joined_path(
                joined_path(joined_path(home@, "Library"@), "Caches"@),
                "MTPDrive"@,
            ),
            r.staging_dir@ == joined_path(r.cache_dir@, "staging"@),
            r.sidecar_dir@ == joined_path(r.support_dir@, "sidecar"@),
            r.log_dir@ == joined_path(r.support_dir@, "logs"@),
            r.socket_path@ == joined_path(r.support_dir@, "control.sock"@),
            r.mount_point@ == joined_path(home@, "MTPDrive"@),
    {
        let library = join_path(home, "Library");
        let support_parent = join_path(library.as_str(), "Application Support");
        let support = join_path(support_parent.as_str(), "MTPDrive");
        let caches = join_path(library.as_str(), "Caches");
        let cache = join_path(caches.as_str(), "MTPDrive");
        AppPaths {
            staging_dir: join_path(cache.as_str(), "staging"),
            sidecar_dir: join_path(support.as_str(), "sidecar"),
            log_dir: join_path(support.as_str(), "logs"),
            socket_path: join_path(support.as_str(), "control.sock"),
            mount_point: join_path(home, "MTPDrive"),
            support_dir: support,
            cache_dir: cache,
        }
    }
}

} // verus!
