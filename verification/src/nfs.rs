//! The NFS projection of the connected devices: stable file handles, safe
//! names, directory pages and attributes.
use crate::cache::{MtpDateTime, ObjectEntry};
use crate::error::{Error, IoErrorKind};
use crate::model::{DeviceSummary, StorageSummary};
use crate::text::{
    chars_of, has_char, hex, hex_string, pad_with_zeros, push_char, str_equals, string_of_range, trim,
    trim_bounds, zero_padded, CharClass,
};
use time::{Date, Month, PrimitiveDateTime, Time};
use vstd::prelude::*;

verus! {

/// Eight-byte stable identifier used in NFS file handles ("MTPDRIVE").
pub const NFS_FSID: u64 = 0x4D54_5044_5249_5645;

/// The inode of the volume's root directory.
pub const ROOT_INODE: u64 = 1;

/// The capacity reported when the devices report none.
pub const FALLBACK_CAPACITY: u64 = 1_073_741_824;

/// The largest read or write transfer.
pub const MAX_IO_SIZE: u32 = 1_048_576;

/// The preferred read or write transfer.
pub const PREFERRED_IO_SIZE: u32 = 131_072;

/// NFSv3 status codes the file system answers with.
#[derive(Debug, Clone, Copy, PartialEq, Eq, Structural)]
pub enum Nfsstat3 {
    Noent,
    Io,
    Acces,
    Exist,
    Xdev,
    Notdir,
    Isdir,
    Inval,
    Fbig,
    Nospc,
    Rofs,
    Nametoolong,
    Notempty,
    Stale,
    Badhandle,
    NotSync,
    BadCookie,
    NotSupp,
    TooSmall,
    ServerFault,
}

/// Stable identity passed between the NFS server and the device backend.
#[derive(Debug, Clone, PartialEq, Eq, Hash)]
pub enum NodeHandle {
    Root,
    Device { key: String, generation: u64 },
    Storage { device_key: String, generation: u64, storage_id: u64 },
    Object { device_key: String, generation: u64, storage_id: u64, object_id: u64 },
    Staged(u128),
}

/// A node handle with its strings as character sequences.
pub enum NodeHandleView {
    Root,
    Device { key: Seq<char>, generation: u64 },
    Storage { device_key: Seq<char>, generation: u64, storage_id: u64 },
    Object { device_key: Seq<char>, generation: u64, storage_id: u64, object_id: u64 },
    Staged(u128),
}

impl View for NodeHandle {
    type V = NodeHandleView;

    open spec fn view(&self) -> NodeHandleView {
        match self {
            NodeHandle::Root => NodeHandleView::Root,
            NodeHandle::Device { key, generation } => NodeHandleView::Device {
                key: key@,
                generation: *generation,
            },
            NodeHandle::Storage { device_key, generation, storage_id } => NodeHandleView::Storage {
                device_key: device_key@,
                generation: *generation,
                storage_id: *storage_id,
            },
            NodeHandle::Object { device_key, generation, storage_id, object_id } =>
                NodeHandleView::Object {
                device_key: device_key@,
                generation: *generation,
                storage_id: *storage_id,
                object_id: *object_id,
            },
            NodeHandle::Staged(id) => NodeHandleView::Staged(*id),
        }
    }
}

impl NodeHandle {
    /// A copy of the handle.
    pub fn duplicate(&self) -> (r: Self)
        ensures
            r@ == self@,
    {
        match self {
            NodeHandle::Root => NodeHandle::Root,
            NodeHandle::Device { key, generation } => NodeHandle::Device {
                key: key.clone(),
                generation: *generation,
            },
            NodeHandle::Storage { device_key, generation, storage_id } => NodeHandle::Storage {
                device_key: device_key.clone(),
                generation: *generation,
                storage_id: *storage_id,
            },
            NodeHandle::Object { device_key, generation, storage_id, object_id } =>
                NodeHandle::Object {
                device_key: device_key.clone(),
                generation: *generation,
                storage_id: *storage_id,
                object_id: *object_id,
            },
            NodeHandle::Staged(id) => NodeHandle::Staged(*id),
        }
    }

    /// Whether two handles name the same node.
    pub fn same_as(&self, other: &NodeHandle) -> (r: bool)
        ensures
            r == (self@ == other@),
    {
        match (self, other) {
            (NodeHandle::Root, NodeHandle::Root) => true,
            (
                NodeHandle::Device { key: a, generation: g },
                NodeHandle::Device { key: b, generation: h },
            ) => *g == *h && a.eq(b),
            (
                NodeHandle::Storage { device_key: a, generation: g, storage_id: s },
                NodeHandle::Storage { device_key: b, generation: h, storage_id: t },
            ) => *g == *h && *s == *t && a.eq(b),
            (
                NodeHandle::Object { device_key: a, generation: g, storage_id: s, object_id: o },
                NodeHandle::Object { device_key: b, generation: h, storage_id: t, object_id: p },
            ) => *g == *h && *s == *t && *o == *p && a.eq(b),
            (NodeHandle::Staged(a), NodeHandle::Staged(b)) => *a == *b,
            _ => false,
        }
    }
}

/// What the file system reads of an NFS file handle: the length of its
/// data, the file-system id and the inode it carries.
#[derive(Debug, Clone, Copy, PartialEq, Eq, Structural)]
pub struct FileHandle {
    pub data_len: usize,
    pub fsid: u64,
    pub ino: u64,
}

impl FileHandle {
    /// The sixteen-byte handle of `ino` in file system `fsid`.
    pub fn new(ino: u64, fsid: u64) -> (r: Self)
        ensures
            r == (FileHandle { data_len: 16, fsid, ino }),
    {
        FileHandle { data_len: 16, fsid, ino }
    }
}

/// The inode that interning `handle` into a table holding `nodes` yields:
/// its position plus one when it is already there, the next inode otherwise.
pub open spec fn inode_for(nodes: Seq<NodeHandleView>, handle: NodeHandleView) -> int {
    if nodes.contains(handle) {
        (choose|i: int| 0 <= i < nodes.len() && nodes[i] == handle) + 1
    } else {
        nodes.len() as int + 1
    }
}

/// The nodes of a table after interning `handle`.
pub open spec fn after_intern(nodes: Seq<NodeHandleView>, handle: NodeHandleView) -> Seq<
    NodeHandleView,
> {
    if nodes.contains(handle) {
        nodes
    } else {
        nodes.push(handle)
    }
}

/// What resolving `fh` in a table holding `nodes` gives: handles of another
/// shape or file system are bad, unknown inodes are stale.
pub open spec fn resolved(nodes: Seq<NodeHandleView>, fh: FileHandle) -> Result<
    NodeHandleView,
    Nfsstat3,
> {
    if fh.data_len != 16 || fh.fsid != NFS_FSID {
        Err(Nfsstat3::Badhandle)
    } else if 1 <= fh.ino <= nodes.len() {
        Ok(nodes[fh.ino - 1])
    } else {
        Err(Nfsstat3::Stale)
    }
}

/// The table of inodes handed to NFS clients: node `i` has inode `i + 1`,
/// and the root comes first.
#[derive(Debug)]
pub struct HandleTable {
    handles: Vec<NodeHandle>,
}

impl HandleTable {
    /// The nodes in inode order.
    pub closed spec fn nodes(&self) -> Seq<NodeHandleView> {
        self.handles@.map_values(|h: NodeHandle| h@)
    }

    /// The root comes first and no node appears twice.
    pub open spec fn wf(&self) -> bool {
        &&& self.nodes().len() >= 1
        &&& self.nodes()[0] == NodeHandleView::Root
        &&& self.nodes().no_duplicates()
    }

    /// A table holding only the root.
    pub fn new() -> (r: Self)
        ensures
            r.wf(),
            r.nodes() == seq![NodeHandleView::Root],
    {
        let mut handles: Vec<NodeHandle> = Vec::new();
        handles.push(NodeHandle::Root);
        let r = HandleTable { handles };
        proof {
            assert(r.nodes() =~= seq![NodeHandleView::Root]);
        }
        r
    }

    /// The inode of `handle`, allocating the next one for a new handle.
    pub fn intern(&mut self, handle: NodeHandle) -> (ino: u64)
        requires
            old(self).wf(),
            old(self).nodes().len() < u64::MAX,
        ensures
            final(self).wf(),
            final(self).nodes() == after_intern(old(self).nodes(), handle@),
            ino == inode_for(old(self).nodes(), handle@),
    {
        let ghost nodes = self.nodes();
        let mut i: usize = 0;
        while i < self.handles.len()
            invariant
                nodes == self.nodes(),
                nodes == old(self).nodes(),
                self.wf(),
                i <= nodes.len(),
                forall|k: int| 0 <= k < i ==> nodes[k] != handle@,
            decreases self.handles.len() - i,
        {
            if self.handles[i].same_as(&handle) {
                proof {
                    assert(nodes[i as int] == handle@);
                    assert(nodes.contains(handle@));
                    let j = choose|j: int| 0 <= j < nodes.len() && nodes[j] == handle@;
                    assert(j == i) by {
                        if j != i {
                            assert(nodes[j] == nodes[i as int]);
                        }
                    }
                }
                return (i as u64) + 1;
            }
            i = i + 1;
        }
        proof {
            assert(!nodes.contains(handle@));
        }
        let ino = (self.handles.len() as u64) + 1;
        self.handles.push(handle);
        proof {
            assert(self.nodes() =~= nodes.push(handle@));
            assert(self.nodes()[0] == nodes[0]);
            assert forall|a: int, b: int|
                0 <= a < b < self.nodes().len() implies self.nodes()[a] != self.nodes()[b] by {
                if b == nodes.len() {
                    assert(nodes[a] != handle@);
                } else {
                    assert(nodes.no_duplicates());
                }
            }
        }
        ino
    }

    /// The node a file handle names.
    pub fn resolve(&self, fh: &FileHandle) -> (r: Result<NodeHandle, Nfsstat3>)
        ensures
            match r {
                Ok(h) => resolved(self.nodes(), *fh) == Ok::<NodeHandleView, Nfsstat3>(h@),
                Err(e) => resolved(self.nodes(), *fh) == Err::<NodeHandleView, Nfsstat3>(e),
            },
    {
        if fh.data_len != 16 || fh.fsid != NFS_FSID {
            return Err(Nfsstat3::Badhandle);
        }
        if 1 <= fh.ino && fh.ino <= self.handles.len() as u64 {
            let i = (fh.ino - 1) as usize;
            Ok(self.handles[i].duplicate())
        } else {
            Err(Nfsstat3::Stale)
        }
    }
}

/// Interning a handle gives an inode that resolves back to it; interning it
/// again gives the same inode and changes nothing; and the inodes handed
/// out before keep resolving to their nodes.
pub proof fn law_interned_handle_resolves(
    nodes: Seq<NodeHandleView>,
    handle: NodeHandleView,
    earlier: FileHandle,
)
    requires
        nodes.no_duplicates(),
    ensures
        ({
            let after = after_intern(nodes, handle);
            let ino = inode_for(nodes, handle);
            &&& 1 <= ino <= u64::MAX ==> resolved(after, FileHandle::new_spec(ino as u64)) == Ok::<
                NodeHandleView,
                Nfsstat3,
            >(handle)
            &&& inode_for(after, handle) == ino
            &&& after_intern(after, handle) == after
            &&& earlier.ino <= nodes.len() ==> resolved(after, earlier) == resolved(nodes, earlier)
        }),
{
    let after = after_intern(nodes, handle);
    if nodes.contains(handle) {
        let i = choose|i: int| 0 <= i < nodes.len() && nodes[i] == handle;
        assert(nodes[i] == handle);
    } else {
        assert(after[nodes.len() as int] == handle);
        assert(after.contains(handle));
        let j = choose|j: int| 0 <= j < after.len() && after[j] == handle;
        if j < nodes.len() {
            assert(nodes[j] == handle);
        }
    }
}

/// A handle from another file system is refused, whatever the table holds.
pub proof fn law_foreign_handles_are_refused(nodes: Seq<NodeHandleView>, fh: FileHandle)
    requires
        fh.fsid != NFS_FSID,
    ensures
        resolved(nodes, fh) == Err::<NodeHandleView, Nfsstat3>(Nfsstat3::Badhandle),
{
}

impl FileHandle {
    /// The handle `new` builds for `ino` in this file system.
    pub open spec fn new_spec(ino: u64) -> FileHandle {
        FileHandle { data_len: 16, fsid: NFS_FSID, ino }
    }
}


/// Whether a name cannot stand for an entry: empty, `.`, `..`, or holding
/// a slash or a NUL character.
pub open spec fn is_invalid_name(name: Seq<char>) -> bool {
    ||| name.len() == 0
    ||| name == seq!['.']
    ||| name == seq!['.', '.']
    ||| has_char(name, '/')
    ||| has_char(name, '\0')
}

/// Checks a name given by a client: invalid names are refused, and so are
/// names longer than 254 bytes.
pub fn validate_name(name: &str) -> (r: Result<(), Nfsstat3>)
    ensures
        r == (if is_invalid_name(name@) {
            Err::<(), Nfsstat3>(Nfsstat3::Inval)
        } else if name.len() > 254 {
            Err(Nfsstat3::Nametoolong)
        } else {
            Ok(())
        }),
{
    let v = chars_of(name);
    let n = v.len();
    let mut bad = n == 0 || (n == 1 && v[0] == '.') || (n == 2 && v[0] == '.' && v[1] == '.');
    proof {
        if n == 1 && v@[0] == '.' {
            assert(name@ =~= seq!['.']);
        }
        if n == 2 && v@[0] == '.' && v@[1] == '.' {
            assert(name@ =~= seq!['.', '.']);
        }
        if name@ == seq!['.'] {
            assert(v@[0] == '.');
        }
        if name@ == seq!['.', '.'] {
            assert(v@[0] == '.' && v@[1] == '.');
        }
    }
    let mut i: usize = 0;
    while i < n
        invariant
            n == v@.len(),
            v@ == name@,
            i <= n,
            bad == (name@.len() == 0 || name@ == seq!['.'] || name@ == seq!['.', '.'] || exists|
                k: int,
            | 0 <= k < i && (v@[k] == '/' || v@[k] == '\0')),
        decreases n - i,
    {
        if v[i] == '/' || v[i] == '\0' {
            bad = true;
        }
        i = i + 1;
    }
    proof {
        if has_char(name@, '/') {
            let k = choose|k: int| 0 <= k < name@.len() && name@[k] == '/';
            assert(v@[k] == '/');
        }
        if has_char(name@, '\0') {
            let k = choose|k: int| 0 <= k < name@.len() && name@[k] == '\0';
            assert(v@[k] == '\0');
        }
        if exists|k: int| 0 <= k < n && (v@[k] == '/' || v@[k] == '\0') {
            let k = choose|k: int| 0 <= k < n && (v@[k] == '/' || v@[k] == '\0');
            assert(name@[k] == v@[k]);
        }
    }
    if bad {
        return Err(Nfsstat3::Inval);
    }
    if name.len() > 254 {
        return Err(Nfsstat3::Nametoolong);
    }
    Ok(())
}

/// A character of a component name: path separators and NUL become `_`.
pub open spec fn cleaned_char(c: char) -> char {
    if c == '/' || c == ':' || c == '\0' {
        '_'
    } else {
        c
    }
}

/// The component name shown for a device or storage name: separators
/// replaced, surrounding whitespace removed, and "MTP device" for a name
/// left empty.
pub open spec fn safe_name(value: Seq<char>) -> Seq<char> {
    let cleaned = trim(value.map_values(|c: char| cleaned_char(c)));
    if cleaned.len() == 0 {
        "MTP device"@
    } else {
        cleaned
    }
}

/// A name that is safe to use as a path component.
pub fn safe_component(value: &str) -> (r: String)
    ensures
        r@ == safe_name(value@),
{
    let v = chars_of(value);
    let mut cleaned: Vec<char> = Vec::new();
    let mut i: usize = 0;
    while i < v.len()
        invariant
            v@ == value@,
            i <= v@.len(),
            cleaned@ == v@.subrange(0, i as int).map_values(|c: char| cleaned_char(c)),
        decreases v.len() - i,
    {
        let c = v[i];
        let d = if c == '/' || c == ':' || c == '\0' {
            '_'
        } else {
            c
        };
        cleaned.push(d);
        i = i + 1;
        proof {
            assert(cleaned@ =~= v@.subrange(0, i as int).map_values(|c: char| cleaned_char(c)));
        }
    }
    proof {
        assert(v@.subrange(0, v@.len() as int) =~= v@);
    }
    let (a, b) = trim_bounds(&cleaned, CharClass::Whitespace);
    if a == b {
        proof {
            reveal_strlit("MTP device");
        }
        String::from_str("MTP device")
    } else {
        string_of_range(&cleaned, a, b)
    }
}

/// The last four characters of a serial number (all of it when shorter).
pub open spec fn suffix_of(serial: Seq<char>) -> Seq<char> {
    if serial.len() <= 4 {
        serial
    } else {
        serial.subrange(serial.len() - 4, serial.len() as int)
    }
}

/// The suffix of a serial number is its last four characters: the serial
/// ends with it, and it is four characters long unless the serial is
/// shorter, when it is the whole serial.
pub proof fn law_suffix_is_the_serial_end(serial: Seq<char>)
    ensures
        suffix_of(serial).len() == if serial.len() < 4 {
            serial.len()
        } else {
            4
        },
        serial == serial.subrange(0, serial.len() - suffix_of(serial).len()) + suffix_of(serial),
{
    assert(serial =~= serial.subrange(0, serial.len() - suffix_of(serial).len()) + suffix_of(serial));
}

/// The end of a serial number used to tell devices of one model apart.
pub fn serial_suffix(serial: &str) -> (r: String)
    ensures
        r@ == suffix_of(serial@),
{
    let v = chars_of(serial);
    let start = if v.len() > 4 {
        v.len() - 4
    } else {
        0
    };
    let r = string_of_range(&v, start, v.len());
    proof {
        if v@.len() <= 4 {
            assert(v@.subrange(0, v@.len() as int) =~= v@);
        }
    }
    r
}

/// Refuses a handle made for an earlier connection of the device.
pub fn ensure_generation(summary: &DeviceSummary, generation: u64) -> (r: Result<(), Nfsstat3>)
    ensures
        r == (if summary.generation == generation {
            Ok::<(), Nfsstat3>(())
        } else {
            Err(Nfsstat3::Stale)
        }),
{
    if summary.generation == generation {
        Ok(())
    } else {
        Err(Nfsstat3::Stale)
    }
}

/// The NFS status that answers a failure of the backend.
pub open spec fn status_for(error: Error) -> Nfsstat3 {
    match error {
        Error::Disconnected => Nfsstat3::Stale,
        Error::NotFound => Nfsstat3::Noent,
        Error::Unsupported(_) => Nfsstat3::NotSupp,
        Error::Io { kind: IoErrorKind::NotFound, .. } => Nfsstat3::Noent,
        Error::Io { kind: IoErrorKind::StorageFull, .. } => Nfsstat3::Nospc,
        Error::Operation(_) | Error::Mtp { .. } | Error::Io { .. } => Nfsstat3::Io,
        Error::DaemonUnavailable | Error::InvalidResponse(_) | Error::Json(_) => Nfsstat3::ServerFault,
    }
}

/// The NFS status that answers a failure of the backend.
pub fn map_error(error: Error) -> (r: Nfsstat3)
    ensures
        r == status_for(error),
{
    match error {
        Error::Disconnected => Nfsstat3::Stale,
        Error::NotFound => Nfsstat3::Noent,
        Error::Unsupported(_) => Nfsstat3::NotSupp,
        Error::Io { kind: IoErrorKind::NotFound, .. } => Nfsstat3::Noent,
        Error::Io { kind: IoErrorKind::StorageFull, .. } => Nfsstat3::Nospc,
        Error::Operation(_) | Error::Mtp { .. } | Error::Io { .. } => Nfsstat3::Io,
        Error::DaemonUnavailable | Error::InvalidResponse(_) | Error::Json(_) => Nfsstat3::ServerFault,
    }
}

/// How many of `names` equal `name`.
pub open spec fn occurrences(names: Seq<Seq<char>>, name: Seq<char>) -> nat
    decreases names.len(),
{
    if names.len() == 0 {
        0
    } else {
        occurrences(names.drop_last(), name) + if names.last() == name {
            1nat
        } else {
            0nat
        }
    }
}

/// The name shown for entry `i`: its base name, followed by its suffix in
/// brackets when another entry has the same base name.
pub open spec fn display_name(bases: Seq<Seq<char>>, suffix: Seq<char>, i: int) -> Seq<char> {
    if occurrences(bases, bases[i]) > 1 {
        bases[i] + " ("@ + suffix + ")"@
    } else {
        bases[i]
    }
}

/// Counting equal names: a name occurs once it is somewhere in the list,
/// and more than once exactly when two different positions hold it.
pub proof fn law_occurrences_count_positions(names: Seq<Seq<char>>, name: Seq<char>)
    ensures
        (occurrences(names, name) > 0) == (exists|k: int| 0 <= k < names.len() && #[trigger] names[k]
            == name),
        (occurrences(names, name) > 1) == (exists|k: int, l: int|
            0 <= k < l < names.len() && #[trigger] names[k] == name && #[trigger] names[l] == name),
    decreases names.len(),
{
    if names.len() > 0 {
        let rest = names.drop_last();
        law_occurrences_count_positions(rest, name);
        if exists|k: int| 0 <= k < names.len() && #[trigger] names[k] == name {
            let k = choose|k: int| 0 <= k < names.len() && #[trigger] names[k] == name;
            if k < names.len() - 1 {
                assert(rest[k] == name);
            }
        }
        if exists|k: int| 0 <= k < rest.len() && #[trigger] rest[k] == name {
            let k = choose|k: int| 0 <= k < rest.len() && #[trigger] rest[k] == name;
            assert(names[k] == name);
        }
        if exists|k: int, l: int|
            0 <= k < l < names.len() && #[trigger] names[k] == name && #[trigger] names[l] == name {
            let (k, l) = choose|k: int, l: int|
                0 <= k < l < names.len() && #[trigger] names[k] == name && #[trigger] names[l]
                    == name;
            assert(rest[k] == name);
            if l < names.len() - 1 {
                assert(rest[l] == name);
            }
        }
        if exists|k: int, l: int|
            0 <= k < l < rest.len() && #[trigger] rest[k] == name && #[trigger] rest[l] == name {
            let (k, l) = choose|k: int, l: int|
                0 <= k < l < rest.len() && #[trigger] rest[k] == name && #[trigger] rest[l] == name;
            assert(names[k] == name && names[l] == name);
        }
        if names.last() == name && occurrences(rest, name) > 0 {
            let k = choose|k: int| 0 <= k < rest.len() && #[trigger] rest[k] == name;
            assert(names[k] == name && names[names.len() - 1] == name);
        }
    }
}

/// A shown name keeps its base name when no other entry has it, and takes
/// its suffix in brackets when another entry has the same base name.
pub proof fn law_only_shared_names_take_a_suffix(bases: Seq<Seq<char>>, suffix: Seq<char>, i: int)
    requires
        0 <= i < bases.len(),
    ensures
        (exists|j: int| 0 <= j < bases.len() && j != i && #[trigger] bases[j] == bases[i])
            ==> display_name(bases, suffix, i) == bases[i] + " ("@ + suffix + ")"@,
        !(exists|j: int| 0 <= j < bases.len() && j != i && #[trigger] bases[j] == bases[i])
            ==> display_name(bases, suffix, i) == bases[i],
{
    law_occurrences_count_positions(bases, bases[i]);
    if exists|j: int| 0 <= j < bases.len() && j != i && #[trigger] bases[j] == bases[i] {
        let j = choose|j: int| 0 <= j < bases.len() && j != i && #[trigger] bases[j] == bases[i];
        if j < i {
            assert(bases[j] == bases[i] && bases[i] == bases[i]);
        } else {
            assert(bases[i] == bases[i] && bases[j] == bases[i]);
        }
    } else {
        if occurrences(bases, bases[i]) > 1 {
            let (k, l) = choose|k: int, l: int|
                0 <= k < l < bases.len() && #[trigger] bases[k] == bases[i] && #[trigger] bases[l]
                    == bases[i];
            if k != i {
                assert(bases[k] == bases[i]);
            } else {
                assert(bases[l] == bases[i]);
            }
        }
    }
}

proof fn lemma_occurrences_prefix(names: Seq<Seq<char>>, name: Seq<char>, j: int)
    requires
        0 <= j < names.len(),
    ensures
        occurrences(names.subrange(0, j + 1), name) == occurrences(names.subrange(0, j), name) + (
        if names[j] == name {
            1nat
        } else {
            0nat
        }),
{
    assert(names.subrange(0, j + 1).drop_last() =~= names.subrange(0, j));
}

fn count_equal(names: &Vec<String>, name: &String) -> (r: usize)
    ensures
        r == occurrences(names@.map_values(|s: String| s@), name@),
{
    let ghost views = names@.map_values(|s: String| s@);
    let mut count: usize = 0;
    let mut j: usize = 0;
    while j < names.len()
        invariant
            views == names@.map_values(|s: String| s@),
            j <= names@.len(),
            count == occurrences(views.subrange(0, j as int), name@),
            count <= j,
        decreases names.len() - j,
    {
        proof {
            lemma_occurrences_prefix(views, name@, j as int);
        }
        if names[j].eq(name) {
            count = count + 1;
        }
        j = j + 1;
    }
    proof {
        assert(views.subrange(0, views.len() as int) =~= views);
    }
    count
}

/// Gives each of `bases` its display name, taking the suffixes to tell
/// equal base names apart from `suffixes`.
pub fn disambiguate(bases: &Vec<String>, suffixes: &Vec<String>) -> (r: Vec<String>)
    requires
        bases@.len() == suffixes@.len(),
    ensures
        r@.len() == bases@.len(),
        forall|i: int|
            0 <= i < r@.len() ==> #[trigger] r@[i]@ == display_name(
                bases@.map_values(|s: String| s@),
                suffixes@[i]@,
                i,
            ),
{
    let ghost views = bases@.map_values(|s: String| s@);
    let mut r: Vec<String> = Vec::new();
    let mut i: usize = 0;
    while i < bases.len()
        invariant
            views == bases@.map_values(|s: String| s@),
            bases@.len() == suffixes@.len(),
            i <= bases@.len(),
            r@.len() == i,
            forall|k: int|
                0 <= k < i ==> #[trigger] r@[k]@ == display_name(views, suffixes@[k]@, k),
        decreases bases.len() - i,
    {
        let count = count_equal(bases, &bases[i]);
        if count > 1 {
            let mut s = bases[i].clone();
            s.append(" (");
            s.append(suffixes[i].as_str());
            s.append(")");
            r.push(s);
        } else {
            r.push(bases[i].clone());
        }
        i = i + 1;
    }
    r
}

/// Names the connected devices for the root directory: each by its model,
/// and a model shared by several devices followed by the end of the serial.
pub fn named_devices(summaries: Vec<DeviceSummary>) -> (r: Vec<(String, DeviceSummary)>)
    ensures
        r@.len() == summaries@.len(),
        forall|i: int|
            0 <= i < r@.len() ==> {
                &&& (#[trigger] r@[i]).1 == summaries@[i]
                &&& r@[i].0@ == display_name(
                    summaries@.map_values(|d: DeviceSummary| safe_name(d.model@)),
                    suffix_of(summaries@[i].serial@),
                    i,
                )
            },
{
    let ghost original = summaries@;
    let mut bases: Vec<String> = Vec::new();
    let mut suffixes: Vec<String> = Vec::new();
    let mut i: usize = 0;
    while i < summaries.len()
        invariant
            summaries@ == original,
            i <= original.len(),
            bases@.len() == i,
            suffixes@.len() == i,
            forall|k: int|
                0 <= k < i ==> #[trigger] bases@[k]@ == safe_name(original[k].model@)
                    && suffixes@[k]@ == suffix_of(original[k].serial@),
        decreases summaries.len() - i,
    {
        bases.push(safe_component(summaries[i].model.as_str()));
        suffixes.push(serial_suffix(summaries[i].serial.as_str()));
        i = i + 1;
    }
    proof {
        assert(bases@.map_values(|s: String| s@) =~= original.map_values(
            |d: DeviceSummary| safe_name(d.model@),
        ));
    }
    let names = disambiguate(&bases, &suffixes);
    pair_up(names, summaries)
}

/// Names the storages of a device for its directory: each by its name, and
/// a name shared by several storages followed by the storage id in
/// eight-digit hexadecimal.
pub fn named_storages(storages: Vec<StorageSummary>) -> (r: Vec<(String, StorageSummary)>)
    ensures
        r@.len() == storages@.len(),
        forall|i: int|
            0 <= i < r@.len() ==> {
                &&& (#[trigger] r@[i]).1 == storages@[i]
                &&& r@[i].0@ == display_name(
                    storages@.map_values(|s: StorageSummary| safe_name(s.name@)),
                    zero_padded(hex(storages@[i].id as nat), 8),
                    i,
                )
            },
{
    let ghost original = storages@;
    let mut bases: Vec<String> = Vec::new();
    let mut suffixes: Vec<String> = Vec::new();
    let mut i: usize = 0;
    while i < storages.len()
        invariant
            storages@ == original,
            i <= original.len(),
            bases@.len() == i,
            suffixes@.len() == i,
            forall|k: int|
                0 <= k < i ==> #[trigger] bases@[k]@ == safe_name(original[k].name@)
                    && suffixes@[k]@ == zero_padded(hex(original[k].id as nat), 8),
        decreases storages.len() - i,
    {
        bases.push(safe_component(storages[i].name.as_str()));
        let digits = hex_string(storages[i].id);
        let padded = pad_with_zeros(digits.as_str(), 8);
        proof {
            assert(padded@ == zero_padded(hex(original[i as int].id as nat), 8));
        }
        suffixes.push(padded);
        i = i + 1;
    }
    proof {
        assert(bases@.map_values(|s: String| s@) =~= original.map_values(
            |s: StorageSummary| safe_name(s.name@),
        ));
    }
    let names = disambiguate(&bases, &suffixes);
    pair_up(names, storages)
}

/// Pairs each name with the item at the same position.
fn pair_up<T>(names: Vec<String>, items: Vec<T>) -> (r: Vec<(String, T)>)
    requires
        names@.len() == items@.len(),
    ensures
        r@.len() == items@.len(),
        forall|i: int| 0 <= i < r@.len() ==> #[trigger] r@[i] == (names@[i], items@[i]),
{
    let ghost all_names = names@;
    let ghost all_items = items@;
    let mut names = names;
    let mut items = items;
    let mut r: Vec<(String, T)> = Vec::new();
    while names.len() > 0
        invariant
            names@.len() == items@.len(),
            names@.len() + r@.len() == all_items.len(),
            all_names.len() == all_items.len(),
            names@ == all_names.subrange(r@.len() as int, all_names.len() as int),
            items@ == all_items.subrange(r@.len() as int, all_items.len() as int),
            forall|k: int| 0 <= k < r@.len() ==> #[trigger] r@[k] == (all_names[k], all_items[k]),
        decreases names@.len(),
    {
        let name = names.remove(0);
        let item = items.remove(0);
        let ghost done = r@.len();
        r.push((name, item));
        proof {
            assert(names@ =~= all_names.subrange(r@.len() as int, all_names.len() as int));
            assert(items@ =~= all_items.subrange(r@.len() as int, all_items.len() as int));
        }
    }
    r
}


/// The number of bytes UTF-8 takes for `c`.
pub open spec fn utf8_width(c: char) -> nat {
    if (c as u32) < 0x80 {
        1
    } else if (c as u32) < 0x800 {
        2
    } else if (c as u32) < 0x10000 {
        3
    } else {
        4
    }
}

/// The length of `name` in bytes of UTF-8.
pub open spec fn byte_len(name: Seq<char>) -> nat
    decreases name.len(),
{
    if name.len() == 0 {
        0
    } else {
        byte_len(name.drop_last()) + utf8_width(name.last())
    }
}

/// `n` rounded up to a multiple of four.
pub open spec fn round_up4(n: nat) -> nat {
    if n % 4 == 0 {
        n
    } else {
        (n + (4 - n % 4)) as nat
    }
}

/// The room a directory entry takes in a reply: a fixed part and its name
/// padded to four bytes.
pub open spec fn entry_cost(name: Seq<char>, fixed: nat) -> nat {
    fixed + round_up4(byte_len(name))
}

/// Where a reply that starts at entry `i` with `used` bytes taken ends when
/// entries are added while they fit in `limit` bytes.
pub open spec fn page_end(names: Seq<Seq<char>>, i: nat, used: nat, fixed: nat, limit: nat) -> nat
    decreases names.len() - i,
{
    if i >= names.len() || used + entry_cost(names[i as int], fixed) > limit {
        i
    } else {
        page_end(names, i + 1, used + entry_cost(names[i as int], fixed), fixed, limit)
    }
}

/// The page of a directory listing that a reply carries: entries from
/// `min(cookie, len)` on while they fit; refused as too small when not even
/// the first fits.
pub open spec fn page_of(names: Seq<Seq<char>>, cookie: nat, header: nat, fixed: nat, limit: nat) -> Result<
    (nat, nat),
    Nfsstat3,
> {
    let start = if cookie < names.len() {
        cookie
    } else {
        names.len()
    };
    if start < names.len() && header + entry_cost(names[start as int], fixed) > limit {
        Err(Nfsstat3::TooSmall)
    } else {
        Ok((start, page_end(names, start, header, fixed, limit)))
    }
}

proof fn lemma_page_end_bounds(names: Seq<Seq<char>>, i: nat, used: nat, fixed: nat, limit: nat)
    requires
        i <= names.len(),
    ensures
        i <= page_end(names, i, used, fixed, limit) <= names.len(),
    decreases names.len() - i,
{
    if i < names.len() && used + entry_cost(names[i as int], fixed) <= limit {
        lemma_page_end_bounds(names, i + 1, used + entry_cost(names[i as int], fixed), fixed, limit);
    }
}

/// UTF-8 lengths: nothing for no text, one to four bytes for a character
/// by its code point (below 0x80, 0x800, 0x10000, or above), and the
/// lengths of two texts add up when they are joined.
pub proof fn law_utf8_lengths(a: Seq<char>, b: Seq<char>, c: char)
    ensures
        byte_len(Seq::<char>::empty()) == 0,
        byte_len(seq![c]) == (if (c as u32) < 0x80 {
            1nat
        } else if (c as u32) < 0x800 {
            2nat
        } else if (c as u32) < 0x10000 {
            3nat
        } else {
            4nat
        }),
        byte_len(a + b) == byte_len(a) + byte_len(b),
        byte_len(a) >= a.len(),
    decreases b.len() + a.len(),
{
    assert(seq![c].drop_last() =~= Seq::<char>::empty());
    if b.len() > 0 {
        law_utf8_lengths(a, b.drop_last(), c);
        assert((a + b).drop_last() =~= a + b.drop_last());
        assert((a + b).last() == b.last());
    } else {
        assert(a + b =~= a);
    }
    if a.len() > 0 {
        law_utf8_lengths(a.drop_last(), b, c);
    }
}

/// The room an entry takes: the fixed part and the name's UTF-8 bytes,
/// padded with fewer than four bytes to a multiple of four.
pub proof fn law_entry_cost_is_padded_utf8(name: Seq<char>, fixed: nat)
    ensures
        entry_cost(name, fixed) >= fixed + byte_len(name),
        entry_cost(name, fixed) < fixed + byte_len(name) + 4,
        (entry_cost(name, fixed) - fixed) % 4 == 0,
{
}

/// The bytes a reply takes that starts with `header` bytes and carries the
/// entries of `names` from `start` up to `end`: each entry its `fixed` part
/// and its name's UTF-8 bytes padded to a multiple of four.
pub open spec fn reply_size(names: Seq<Seq<char>>, start: int, end: int, header: nat, fixed: nat) -> nat
    decreases end - start,
{
    if end <= start {
        header
    } else {
        reply_size(names, start, end - 1, header, fixed) + fixed + round_up4(byte_len(names[end - 1]))
    }
}

proof fn lemma_page_end_fits(
    names: Seq<Seq<char>>,
    start: nat,
    i: nat,
    used: nat,
    header: nat,
    fixed: nat,
    limit: nat,
)
    requires
        start <= i <= names.len(),
        used == reply_size(names, start as int, i as int, header, fixed),
        used <= limit,
    ensures
        ({
            let e = page_end(names, i, used, fixed, limit);
            &&& reply_size(names, start as int, e as int, header, fixed) <= limit
            &&& (e < names.len() ==> reply_size(names, start as int, e + 1int, header, fixed) > limit)
        }),
    decreases names.len() - i,
{
    if i < names.len() && used + entry_cost(names[i as int], fixed) <= limit {
        lemma_page_end_fits(
            names,
            start,
            i + 1,
            used + entry_cost(names[i as int], fixed),
            header,
            fixed,
            limit,
        );
    }
}

/// A page of a directory listing fits the client's byte count and is as
/// long as it can be: the reply with its entries takes at most `limit`
/// bytes, and with one more entry it would take more. A page is refused as
/// too small exactly when not even its first entry fits.
pub proof fn law_pages_fit_the_count(
    names: Seq<Seq<char>>,
    cookie: nat,
    header: nat,
    fixed: nat,
    limit: nat,
)
    ensures
        page_of(names, cookie, header, fixed, limit) matches Ok((start, end)) ==> {
            &&& start == if cookie < names.len() {
                cookie
            } else {
                names.len()
            }
            &&& start <= end <= names.len()
            &&& (start < end ==> reply_size(
                names,
                start as int,
                end as int,
                header,
                fixed,
            ) <= limit)
            &&& (end < names.len() ==> reply_size(names, start as int, end + 1int, header, fixed)
                > limit)
        },
        page_of(names, cookie, header, fixed, limit) is Err ==> {
            &&& cookie < names.len()
            &&& reply_size(names, cookie as int, cookie + 1int, header, fixed) > limit
        },
{
    let start = if cookie < names.len() {
        cookie
    } else {
        names.len()
    };
    assert(reply_size(names, start as int, start as int, header, fixed) == header);
    if start < names.len() {
        assert(reply_size(names, start as int, start + 1int, header, fixed) == header + entry_cost(
            names[start as int],
            fixed,
        ));
    }
    if page_of(names, cookie, header, fixed, limit) is Ok {
        lemma_page_end_bounds(names, start, header, fixed, limit);
        if header <= limit {
            lemma_page_end_fits(names, start, start, header, header, fixed, limit);
        } else {
            assert(start == names.len() || header + entry_cost(names[start as int], fixed) > limit);
        }
    }
}

fn utf8_len(name: &String) -> (r: u128)
    ensures
        r == byte_len(name@),
        r <= 4 * (usize::MAX as nat),
{
    let v = chars_of(name.as_str());
    let mut total: u128 = 0;
    let mut i: usize = 0;
    while i < v.len()
        invariant
            v@ == name@,
            i <= v@.len(),
            total == byte_len(v@.subrange(0, i as int)),
            total <= 4 * i,
        decreases v.len() - i,
    {
        let c = v[i] as u32;
        let w: u128 = if c < 0x80 {
            1
        } else if c < 0x800 {
            2
        } else if c < 0x10000 {
            3
        } else {
            4
        };
        proof {
            assert(v@.subrange(0, i + 1).drop_last() =~= v@.subrange(0, i as int));
        }
        total = total + w;
        i = i + 1;
    }
    proof {
        assert(v@.subrange(0, v@.len() as int) =~= v@);
    }
    total
}

fn entry_cost_of(name: &String, fixed: usize) -> (r: u128)
    requires
        fixed <= 1024,
    ensures
        r == entry_cost(name@, fixed as nat),
        r <= 1024 + 4 * (usize::MAX as nat) + 3,
{
    let n = utf8_len(name);
    let rem = n % 4;
    if rem == 0 {
        fixed as u128 + n
    } else {
        fixed as u128 + n + (4 - rem)
    }
}

/// The entries `(start, end)` of a listing that one reply carries, and
/// whether it reaches the end of the listing.
pub fn directory_page(names: &Vec<String>, cookie: u64, limit: u32, header: usize, fixed: usize) -> (r:
    Result<(usize, usize, bool), Nfsstat3>)
    requires
        header <= 1024,
        fixed <= 1024,
    ensures
        ({
            let views = names@.map_values(|s: String| s@);
            match page_of(views, cookie as nat, header as nat, fixed as nat, limit as nat) {
                Ok((start, end)) => r == Ok::<(usize, usize, bool), Nfsstat3>(
                    (start as usize, end as usize, end == views.len()),
                ),
                Err(e) => r == Err::<(usize, usize, bool), Nfsstat3>(e),
            }
        }),
{
    let ghost views = names@.map_values(|s: String| s@);
    let n = names.len();
    let start: usize = if (cookie as u128) < (n as u128) {
        cookie as usize
    } else {
        n
    };
    if start < n {
        let first = entry_cost_of(&names[start], fixed);
        if (header as u128) + first > limit as u128 {
            return Err(Nfsstat3::TooSmall);
        }
    }
    let mut used: u128 = header as u128;
    let mut end: usize = start;
    proof {
        lemma_page_end_bounds(views, start as nat, header as nat, fixed as nat, limit as nat);
    }
    while end < n
        invariant
            views == names@.map_values(|s: String| s@),
            n == views.len(),
            start <= end <= n,
            used <= 1024 + u32::MAX,
            page_end(views, end as nat, used as nat, fixed as nat, limit as nat) == page_end(
                views,
                start as nat,
                header as nat,
                fixed as nat,
                limit as nat,
            ),
            fixed <= 1024,
            header <= 1024,
        ensures
            end == n || used + entry_cost(views[end as int], fixed as nat) > limit,
            page_end(views, end as nat, used as nat, fixed as nat, limit as nat) == page_end(
                views,
                start as nat,
                header as nat,
                fixed as nat,
                limit as nat,
            ),
        decreases n - end,
    {
        let cost = entry_cost_of(&names[end], fixed);
        proof {
            assert(views[end as int] == names@[end as int]@);
        }
        if used + cost > limit as u128 {
            break;
        }
        used = used + cost;
        end = end + 1;
    }
    proof {
        if end < n {
            assert(views[end as int] == names@[end as int]@);
        }
    }
    Ok((start, end, end == n))
}

/// The page a READDIR reply of `count` bytes carries.
pub fn readdir_page(names: &Vec<String>, cookie: u64, count: u32) -> (r: Result<
    (usize, usize, bool),
    Nfsstat3,
>)
    ensures
        ({
            let views = names@.map_values(|s: String| s@);
            match page_of(views, cookie as nat, 128, 32, count as nat) {
                Ok((start, end)) => r == Ok::<(usize, usize, bool), Nfsstat3>(
                    (start as usize, end as usize, end == views.len()),
                ),
                Err(e) => r == Err::<(usize, usize, bool), Nfsstat3>(e),
            }
        }),
{
    directory_page(names, cookie, count, 128, 32)
}

/// The page a READDIRPLUS reply of `maxcount` bytes carries.
pub fn readdirplus_page(names: &Vec<String>, cookie: u64, maxcount: u32) -> (r: Result<
    (usize, usize, bool),
    Nfsstat3,
>)
    ensures
        ({
            let views = names@.map_values(|s: String| s@);
            match page_of(views, cookie as nat, 160, 176, maxcount as nat) {
                Ok((start, end)) => r == Ok::<(usize, usize, bool), Nfsstat3>(
                    (start as usize, end as usize, end == views.len()),
                ),
                Err(e) => r == Err::<(usize, usize, bool), Nfsstat3>(e),
            }
        }),
{
    directory_page(names, cookie, maxcount, 160, 176)
}

/// Refuses a continued listing whose cookie verifier is not the current one.
pub fn validate_cookie(cookie: u64, verifier: [u8; 8], current: [u8; 8]) -> (r: Result<(), Nfsstat3>)
    ensures
        r == (if cookie != 0 && verifier@ != current@ {
            Err::<(), Nfsstat3>(Nfsstat3::BadCookie)
        } else {
            Ok(())
        }),
{
    if cookie == 0 {
        return Ok(());
    }
    let mut i: usize = 0;
    while i < 8
        invariant
            cookie != 0,
            i <= 8,
            verifier@.len() == 8,
            current@.len() == 8,
            forall|k: int| 0 <= k < i ==> verifier@[k] == current@[k],
        decreases 8 - i,
    {
        if verifier[i] != current[i] {
            proof {
                assert(verifier@[i as int] != current@[i as int]);
                assert(verifier@ != current@);
            }
            return Err(Nfsstat3::BadCookie);
        }
        i = i + 1;
    }
    proof {
        assert(verifier@ =~= current@);
    }
    Ok(())
}

/// Read access (ACCESS3_READ).
pub const ACCESS3_READ: u32 = 0x0001;

/// Directory lookup access (ACCESS3_LOOKUP).
pub const ACCESS3_LOOKUP: u32 = 0x0002;

/// Modify access (ACCESS3_MODIFY).
pub const ACCESS3_MODIFY: u32 = 0x0004;

/// Extend access (ACCESS3_EXTEND).
pub const ACCESS3_EXTEND: u32 = 0x0008;

/// Delete access (ACCESS3_DELETE).
pub const ACCESS3_DELETE: u32 = 0x0010;

/// Execute access (ACCESS3_EXECUTE).
pub const ACCESS3_EXECUTE: u32 = 0x0020;

/// The access a node grants: reading always, lookup and execution in
/// directories, and modifying, extending and deleting where it is writable.
pub open spec fn granted_bits(is_dir: bool, writable: bool) -> u32 {
    let base = ACCESS3_READ;
    let dir = if is_dir {
        base | ACCESS3_LOOKUP | ACCESS3_EXECUTE
    } else {
        base
    };
    if writable {
        dir | ACCESS3_MODIFY | ACCESS3_EXTEND | ACCESS3_DELETE
    } else {
        dir
    }
}

/// Which bits of the requested access a node grants: reading always;
/// lookup and execution exactly in a directory; modifying, extending and
/// deleting exactly where it is writable; nothing that was not requested.
pub proof fn law_access_follows_kind_and_writability(requested: u32, is_dir: bool, writable: bool)
    ensures
        ({
            let r = requested & granted_bits(is_dir, writable);
            &&& r & ACCESS3_READ == requested & ACCESS3_READ
            &&& r & ACCESS3_LOOKUP == (if is_dir {
                requested & ACCESS3_LOOKUP
            } else {
                0
            })
            &&& r & ACCESS3_EXECUTE == (if is_dir {
                requested & ACCESS3_EXECUTE
            } else {
                0
            })
            &&& r & ACCESS3_MODIFY == (if writable {
                requested & ACCESS3_MODIFY
            } else {
                0
            })
            &&& r & ACCESS3_EXTEND == (if writable {
                requested & ACCESS3_EXTEND
            } else {
                0
            })
            &&& r & ACCESS3_DELETE == (if writable {
                requested & ACCESS3_DELETE
            } else {
                0
            })
            &&& r & !0x3fu32 == 0
            &&& r & requested == r
        }),
{
    let g = granted_bits(is_dir, writable);
    if is_dir && writable {
        assert(g == 0x3fu32) by (bit_vector)
            requires
                g == 1u32 | 2u32 | 0x20u32 | 4u32 | 8u32 | 0x10u32,
        ;
        assert({
            let r = requested & g;
            &&& r & 1 == requested & 1
            &&& r & 2 == requested & 2
            &&& r & 0x20 == requested & 0x20
            &&& r & 4 == requested & 4
            &&& r & 8 == requested & 8
            &&& r & 0x10 == requested & 0x10
            &&& r & !0x3fu32 == 0
            &&& r & requested == r
        }) by (bit_vector)
            requires
                g == 0x3fu32,
        ;
    } else if is_dir {
        assert(g == 0x23u32) by (bit_vector)
            requires
                g == 1u32 | 2u32 | 0x20u32,
        ;
        assert({
            let r = requested & g;
            &&& r & 1 == requested & 1
            &&& r & 2 == requested & 2
            &&& r & 0x20 == requested & 0x20
            &&& r & 4 == 0
            &&& r & 8 == 0
            &&& r & 0x10 == 0
            &&& r & !0x3fu32 == 0
            &&& r & requested == r
        }) by (bit_vector)
            requires
                g == 0x23u32,
        ;
    } else if writable {
        assert(g == 0x1du32) by (bit_vector)
            requires
                g == 1u32 | 4u32 | 8u32 | 0x10u32,
        ;
        assert({
            let r = requested & g;
            &&& r & 1 == requested & 1
            &&& r & 2 == 0
            &&& r & 0x20 == 0
            &&& r & 4 == requested & 4
            &&& r & 8 == requested & 8
            &&& r & 0x10 == requested & 0x10
            &&& r & !0x3fu32 == 0
            &&& r & requested == r
        }) by (bit_vector)
            requires
                g == 0x1du32,
        ;
    } else {
        assert({
            let r = requested & g;
            &&& r & 1 == requested & 1
            &&& r & 2 == 0
            &&& r & 0x20 == 0
            &&& r & 4 == 0
            &&& r & 8 == 0
            &&& r & 0x10 == 0
            &&& r & !0x3fu32 == 0
            &&& r & requested == r
        }) by (bit_vector)
            requires
                g == 1u32,
        ;
    }
}

/// The part of the requested access that a node grants.
pub fn granted_access(requested: u32, is_dir: bool, writable: bool) -> (r: u32)
    ensures
        r == requested & granted_bits(is_dir, writable),
        r & ACCESS3_READ == requested & ACCESS3_READ,
        r & ACCESS3_LOOKUP == (if is_dir {
            requested & ACCESS3_LOOKUP
        } else {
            0
        }),
        r & ACCESS3_EXECUTE == (if is_dir {
            requested & ACCESS3_EXECUTE
        } else {
            0
        }),
        r & ACCESS3_MODIFY == (if writable {
            requested & ACCESS3_MODIFY
        } else {
            0
        }),
        r & ACCESS3_EXTEND == (if writable {
            requested & ACCESS3_EXTEND
        } else {
            0
        }),
        r & ACCESS3_DELETE == (if writable {
            requested & ACCESS3_DELETE
        } else {
            0
        }),
        r & !0x3fu32 == 0,
{
    proof {
        law_access_follows_kind_and_writability(requested, is_dir, writable);
    }
    let mut granted = ACCESS3_READ;
    if is_dir {
        granted = granted | ACCESS3_LOOKUP | ACCESS3_EXECUTE;
    }
    if writable {
        granted = granted | ACCESS3_MODIFY | ACCESS3_EXTEND | ACCESS3_DELETE;
    }
    requested & granted
}

/// The total of a field over the storages of the devices.
pub open spec fn storages_sum(devices: Seq<DeviceSummary>, free: bool) -> nat
    decreases devices.len(),
{
    if devices.len() == 0 {
        0
    } else {
        storages_sum(devices.drop_last(), free) + device_sum(devices.last().storages@, free)
    }
}

/// The total of a field over one device's storages.
pub open spec fn device_sum(storages: Seq<StorageSummary>, free: bool) -> nat
    decreases storages.len(),
{
    if storages.len() == 0 {
        0
    } else {
        device_sum(storages.drop_last(), free) + if free {
            storages.last().free_bytes as nat
        } else {
            storages.last().total_bytes as nat
        }
    }
}

/// The field of a storage that a total adds up: its free or its total bytes.
pub open spec fn storage_field(storage: StorageSummary, free: bool) -> nat {
    if free {
        storage.free_bytes as nat
    } else {
        storage.total_bytes as nat
    }
}

/// A device's total is additive over its storages: nothing for none, and
/// each storage adds its own bytes, in any grouping.
pub proof fn law_device_totals_add_up(
    a: Seq<StorageSummary>,
    b: Seq<StorageSummary>,
    x: StorageSummary,
    free: bool,
)
    ensures
        device_sum(Seq::<StorageSummary>::empty(), free) == 0,
        device_sum(a.push(x), free) == device_sum(a, free) + storage_field(x, free),
        device_sum(a + b, free) == device_sum(a, free) + device_sum(b, free),
    decreases b.len(),
{
    assert(a.push(x).drop_last() =~= a);
    if b.len() > 0 {
        law_device_totals_add_up(a, b.drop_last(), x, free);
        assert((a + b).drop_last() =~= a + b.drop_last());
        assert((a + b).last() == b.last());
    } else {
        assert(a + b =~= a);
    }
}

/// The volume's totals are additive over the connected devices: nothing for
/// none, each device adds the totals of all its storages, in any grouping.
pub proof fn law_volume_totals_add_up(
    a: Seq<DeviceSummary>,
    b: Seq<DeviceSummary>,
    d: DeviceSummary,
    free: bool,
)
    ensures
        storages_sum(Seq::<DeviceSummary>::empty(), free) == 0,
        storages_sum(a.push(d), free) == storages_sum(a, free) + device_sum(d.storages@, free),
        storages_sum(a + b, free) == storages_sum(a, free) + storages_sum(b, free),
    decreases b.len(),
{
    assert(a.push(d).drop_last() =~= a);
    if b.len() > 0 {
        law_volume_totals_add_up(a, b.drop_last(), d, free);
        assert((a + b).drop_last() =~= a + b.drop_last());
        assert((a + b).last() == b.last());
    } else {
        assert(a + b =~= a);
    }
}

fn device_total(storages: &Vec<StorageSummary>, free: bool, bound: u64) -> (r: u64)
    requires
        device_sum(storages@, free) <= bound,
    ensures
        r == device_sum(storages@, free),
{
    let mut total: u64 = 0;
    let mut i: usize = 0;
    while i < storages.len()
        invariant
            i <= storages@.len(),
            total == device_sum(storages@.subrange(0, i as int), free),
            device_sum(storages@, free) <= bound,
        decreases storages.len() - i,
    {
        proof {
            assert(storages@.subrange(0, i + 1).drop_last() =~= storages@.subrange(0, i as int));
            lemma_device_sum_prefix(storages@, i as int + 1, free);
        }
        let value = if free {
            storages[i].free_bytes
        } else {
            storages[i].total_bytes
        };
        total = total + value;
        i = i + 1;
    }
    proof {
        assert(storages@.subrange(0, storages@.len() as int) =~= storages@);
    }
    total
}

proof fn lemma_device_sum_prefix(storages: Seq<StorageSummary>, j: int, free: bool)
    requires
        0 <= j <= storages.len(),
    ensures
        device_sum(storages.subrange(0, j), free) <= device_sum(storages, free),
    decreases storages.len() - j,
{
    if j < storages.len() {
        lemma_device_sum_prefix(storages, j + 1, free);
        assert(storages.subrange(0, j + 1).drop_last() =~= storages.subrange(0, j));
    } else {
        assert(storages.subrange(0, j) =~= storages);
    }
}

proof fn lemma_storages_sum_prefix(devices: Seq<DeviceSummary>, j: int, free: bool)
    requires
        0 <= j <= devices.len(),
    ensures
        storages_sum(devices.subrange(0, j), free) <= storages_sum(devices, free),
    decreases devices.len() - j,
{
    if j < devices.len() {
        lemma_storages_sum_prefix(devices, j + 1, free);
        assert(devices.subrange(0, j + 1).drop_last() =~= devices.subrange(0, j));
    } else {
        assert(devices.subrange(0, j) =~= devices);
    }
}

fn storages_total(devices: &Vec<DeviceSummary>, free: bool) -> (r: u64)
    requires
        storages_sum(devices@, free) <= u64::MAX,
    ensures
        r == storages_sum(devices@, free),
{
    let mut total: u64 = 0;
    let mut i: usize = 0;
    while i < devices.len()
        invariant
            i <= devices@.len(),
            total == storages_sum(devices@.subrange(0, i as int), free),
            storages_sum(devices@, free) <= u64::MAX,
        decreases devices.len() - i,
    {
        proof {
            assert(devices@.subrange(0, i + 1).drop_last() =~= devices@.subrange(0, i as int));
            lemma_storages_sum_prefix(devices@, i as int + 1, free);
        }
        let part = device_total(&devices[i].storages, free, (u64::MAX - total) as u64);
        total = total + part;
        i = i + 1;
    }
    proof {
        assert(devices@.subrange(0, devices@.len() as int) =~= devices@);
    }
    total
}

/// The size and free space the volume reports: the totals of the storages,
/// with a fallback capacity when the devices report none, and the free space
/// never above the size.
pub open spec fn volume_capacity_of(devices: Seq<DeviceSummary>) -> (u64, u64) {
    let reported_total = storages_sum(devices, false);
    let reported_free = storages_sum(devices, true);
    let total = if reported_total > FALLBACK_CAPACITY {
        reported_total
    } else {
        FALLBACK_CAPACITY as nat
    };
    let free = if reported_total == 0 {
        FALLBACK_CAPACITY as nat
    } else if reported_free < total {
        reported_free
    } else {
        total
    };
    (total as u64, free as u64)
}

/// The size and free space the volume reports (for FSSTAT). The totals must
/// fit in 64 bits, as the sums that compute them do not wrap.
pub fn volume_capacity(devices: &Vec<DeviceSummary>) -> (r: (u64, u64))
    requires
        storages_sum(devices@, false) <= u64::MAX,
        storages_sum(devices@, true) <= u64::MAX,
    ensures
        r == volume_capacity_of(devices@),
{
    let reported_total = storages_total(devices, false);
    let reported_free = storages_total(devices, true);
    let total = if reported_total > FALLBACK_CAPACITY {
        reported_total
    } else {
        FALLBACK_CAPACITY
    };
    let free = if reported_total == 0 {
        FALLBACK_CAPACITY
    } else if reported_free < total {
        reported_free
    } else {
        total
    };
    (total, free)
}

/// An NFS time: seconds and nanoseconds since the Unix epoch.
#[derive(Debug, Clone, Copy, PartialEq, Eq, Structural)]
pub struct Nfstime3 {
    pub seconds: u32,
    pub nseconds: u32,
}

/// The kind of a node.
#[derive(Debug, Clone, Copy, PartialEq, Eq, Structural)]
pub enum Ftype3 {
    Reg,
    Dir,
}

/// Device numbers (always zero here).
#[derive(Debug, Clone, Copy, PartialEq, Eq, Structural)]
pub struct Specdata3 {
    pub specdata1: u32,
    pub specdata2: u32,
}

/// The attributes of a node.
#[derive(Debug, Clone, Copy, PartialEq, Eq, Structural)]
pub struct Fattr3 {
    pub ftype: Ftype3,
    pub mode: u32,
    pub nlink: u32,
    pub uid: u32,
    pub gid: u32,
    pub size: u64,
    pub used: u64,
    pub rdev: Specdata3,
    pub fsid: u64,
    pub fileid: u64,
    pub atime: Nfstime3,
    pub mtime: Nfstime3,
    pub ctime: Nfstime3,
}

/// The time `seconds` after the epoch, saturated to what NFS can carry.
pub open spec fn nfs_time_of_secs(seconds: u64) -> Nfstime3 {
    Nfstime3 {
        seconds: if seconds > u32::MAX {
            u32::MAX
        } else {
            seconds as u32
        },
        nseconds: 0,
    }
}

/// The NFS time of a system time given as its distance from the epoch
/// (`None` before the epoch, which counts as the epoch).
pub fn timestamp_from_system(since_epoch: Option<(u64, u32)>) -> (r: Nfstime3)
    ensures
        r == (match since_epoch {
            Some((secs, nanos)) => Nfstime3 {
                seconds: if secs > u32::MAX {
                    u32::MAX
                } else {
                    secs as u32
                },
                nseconds: nanos,
            },
            None => Nfstime3 { seconds: 0, nseconds: 0 },
        }),
{
    match since_epoch {
        Some((secs, nanos)) => Nfstime3 {
            seconds: if secs > u32::MAX as u64 {
                u32::MAX
            } else {
                secs as u32
            },
            nseconds: nanos,
        },
        None => Nfstime3 { seconds: 0, nseconds: 0 },
    }
}

/// What the `time` crate computes for an MTP date and time read as UTC: the
/// seconds since the Unix epoch, or nothing for an invalid date or time.
pub uninterp spec fn unix_time_of(
    year: u16,
    month: u8,
    day: u8,
    hour: u8,
    minute: u8,
    second: u8,
) -> Option<i64>;

/// `Month::try_from`, `Date::from_calendar_date`, `Time::from_hms` and
/// `PrimitiveDateTime::assume_utc().unix_timestamp()` of the `time` crate:
/// the Unix time of a UTC calendar date and time of day. A month outside
/// 1..=12 or an hour, minute or second out of range gives nothing; which
/// days are valid, and the value itself, stand under `unix_time_of`.
#[verifier::external_body]
fn calendar_unix_time(year: u16, month: u8, day: u8, hour: u8, minute: u8, second: u8) -> (r:
    Option<i64>)
    ensures
        r == unix_time_of(year, month, day, hour, minute, second),
        r is Some ==> 1 <= month <= 12 && hour < 24 && minute < 60 && second < 60,
{
    let month = Month::try_from(month).ok()?;
    let date = Date::from_calendar_date(i32::from(year), month, day).ok()?;
    let time = Time::from_hms(hour, minute, second).ok()?;
    Some(PrimitiveDateTime::new(date, time).assume_utc().unix_timestamp())
}

/// The NFS time of an MTP timestamp, read as UTC; a time before the epoch
/// counts as the epoch. Invalid dates give nothing.
pub open spec fn nfs_time_of_mtp(value: MtpDateTime) -> Option<Nfstime3> {
    match unix_time_of(value.year, value.month, value.day, value.hour, value.minute, value.second) {
        Some(seconds) => Some(
            nfs_time_of_secs(
                if seconds < 0 {
                    0
                } else {
                    seconds as u64
                },
            ),
        ),
        None => None,
    }
}

/// The NFS time of a Unix time that the `time` crate computed for an MTP
/// timestamp.
pub fn timestamp_from_unix(seconds: Option<i64>) -> (r: Option<Nfstime3>)
    ensures
        r == (match seconds {
            Some(s) => Some(nfs_time_of_secs(if s < 0 { 0 } else { s as u64 })),
            None => None,
        }),
{
    match seconds {
        Some(s) => {
            let secs: u64 = if s < 0 {
                0
            } else {
                s as u64
            };
            Some(
                Nfstime3 {
                    seconds: if secs > u32::MAX as u64 {
                        u32::MAX
                    } else {
                        secs as u32
                    },
                    nseconds: 0,
                },
            )
        },
        None => None,
    }
}

/// The NFS time of an MTP timestamp, read as UTC.
pub fn timestamp_from_mtp(value: MtpDateTime) -> (r: Option<Nfstime3>)
    ensures
        r == nfs_time_of_mtp(value),
{
    let seconds = calendar_unix_time(
        value.year,
        value.month,
        value.day,
        value.hour,
        value.minute,
        value.second,
    );
    timestamp_from_unix(seconds)
}

/// The attributes of a virtual directory (the root, a device or a storage).
pub open spec fn directory_attrs_of(fileid: u64, uid: u32, gid: u32, timestamp: Nfstime3) -> Fattr3 {
    Fattr3 {
        ftype: Ftype3::Dir,
        mode: 0o755,
        nlink: 2,
        uid,
        gid,
        size: 0,
        used: 0,
        rdev: Specdata3 { specdata1: 0, specdata2: 0 },
        fsid: NFS_FSID,
        fileid,
        atime: timestamp,
        mtime: timestamp,
        ctime: timestamp,
    }
}

/// The attributes of a virtual directory (the root, a device or a storage).
pub fn directory_attrs(fileid: u64, uid: u32, gid: u32, timestamp: Nfstime3) -> (r: Fattr3)
    ensures
        r == directory_attrs_of(fileid, uid, gid, timestamp),
{
    Fattr3 {
        ftype: Ftype3::Dir,
        mode: 0o755,
        nlink: 2,
        uid,
        gid,
        size: 0,
        used: 0,
        rdev: Specdata3 { specdata1: 0, specdata2: 0 },
        fsid: NFS_FSID,
        fileid,
        atime: timestamp,
        mtime: timestamp,
        ctime: timestamp,
    }
}

/// The attributes of a staged file of `size` bytes last changed at `timestamp`.
pub fn staged_file_attrs(fileid: u64, uid: u32, gid: u32, size: u64, timestamp: Nfstime3) -> (r:
    Fattr3)
    ensures
        r == (Fattr3 {
            ftype: Ftype3::Reg,
            mode: 0o644,
            nlink: 1,
            uid,
            gid,
            size,
            used: size,
            rdev: Specdata3 { specdata1: 0, specdata2: 0 },
            fsid: NFS_FSID,
            fileid,
            atime: timestamp,
            mtime: timestamp,
            ctime: timestamp,
        }),
{
    Fattr3 {
        ftype: Ftype3::Reg,
        mode: 0o644,
        nlink: 1,
        uid,
        gid,
        size,
        used: size,
        rdev: Specdata3 { specdata1: 0, specdata2: 0 },
        fsid: NFS_FSID,
        fileid,
        atime: timestamp,
        mtime: timestamp,
        ctime: timestamp,
    }
}

/// The creation time of an object: its MTP creation time, or the epoch.
pub open spec fn created_time(created: Option<MtpDateTime>) -> Nfstime3 {
    match created {
        Some(value) => match nfs_time_of_mtp(value) {
            Some(t) => t,
            None => Nfstime3 { seconds: 0, nseconds: 0 },
        },
        None => Nfstime3 { seconds: 0, nseconds: 0 },
    }
}

/// The modification time of an object: its MTP modification time, or its
/// creation time.
pub open spec fn modified_time(modified: Option<MtpDateTime>, created: Nfstime3) -> Nfstime3 {
    match modified {
        Some(value) => match nfs_time_of_mtp(value) {
            Some(t) => t,
            None => created,
        },
        None => created,
    }
}

/// An object's times follow its MTP dates: the modification date, where
/// it is a valid date, is its access and modification time; the creation
/// date, where valid, is its change time. The creation time stands in for
/// a missing or invalid modification date, and the epoch for a missing or
/// invalid creation date.
pub proof fn law_object_times_follow_mtp_dates(
    created: Option<MtpDateTime>,
    modified: Option<MtpDateTime>,
)
    ensures
        (created is Some && nfs_time_of_mtp(created->0) is Some) ==> created_time(created)
            == nfs_time_of_mtp(created->0)->0,
        !(created is Some && nfs_time_of_mtp(created->0) is Some) ==> created_time(created)
            == (Nfstime3 { seconds: 0, nseconds: 0 }),
        (modified is Some && nfs_time_of_mtp(modified->0) is Some) ==> modified_time(
            modified,
            created_time(created),
        ) == nfs_time_of_mtp(modified->0)->0,
        !(modified is Some && nfs_time_of_mtp(modified->0) is Some) ==> modified_time(
            modified,
            created_time(created),
        ) == created_time(created),
{
}

/// The attributes of an object on a device.
pub fn object_attrs(fileid: u64, object: &ObjectEntry, uid: u32, gid: u32) -> (r: Fattr3)
    ensures
        (object.modified is Some && nfs_time_of_mtp(object.modified->0) is Some) ==> r.mtime
            == nfs_time_of_mtp(object.modified->0)->0 && r.atime == r.mtime,
        (object.created is Some && nfs_time_of_mtp(object.created->0) is Some) ==> r.ctime
            == nfs_time_of_mtp(object.created->0)->0,
        !(object.modified is Some && nfs_time_of_mtp(object.modified->0) is Some) ==> r.mtime
            == r.ctime && r.atime == r.ctime,
        !(object.created is Some && nfs_time_of_mtp(object.created->0) is Some) ==> r.ctime
            == (Nfstime3 { seconds: 0, nseconds: 0 }),
        ({
            let created = created_time(object.created);
            let modified = modified_time(object.modified, created);
            r == Fattr3 {
                ftype: if object.is_dir {
                    Ftype3::Dir
                } else {
                    Ftype3::Reg
                },
                mode: if object.is_dir {
                    0o755u32
                } else {
                    0o644u32
                },
                nlink: if object.is_dir {
                    2u32
                } else {
                    1u32
                },
                uid,
                gid,
                size: object.size,
                used: object.size,
                rdev: Specdata3 { specdata1: 0, specdata2: 0 },
                fsid: NFS_FSID,
                fileid,
                atime: modified,
                mtime: modified,
                ctime: created,
            }
        }),
{
    let epoch = Nfstime3 { seconds: 0, nseconds: 0 };
    let created = match object.created {
        Some(value) => match timestamp_from_mtp(value) {
            Some(t) => t,
            None => epoch,
        },
        None => epoch,
    };
    let modified = match object.modified {
        Some(value) => match timestamp_from_mtp(value) {
            Some(t) => t,
            None => created,
        },
        None => created,
    };
    Fattr3 {
        ftype: if object.is_dir {
            Ftype3::Dir
        } else {
            Ftype3::Reg
        },
        mode: if object.is_dir {
            0o755
        } else {
            0o644
        },
        nlink: if object.is_dir {
            2
        } else {
            1
        },
        uid,
        gid,
        size: object.size,
        used: object.size,
        rdev: Specdata3 { specdata1: 0, specdata2: 0 },
        fsid: NFS_FSID,
        fileid,
        atime: modified,
        mtime: modified,
        ctime: created,
    }
}


/// The position of the first storage with id `storage_id`.
pub open spec fn storage_index(storages: Seq<StorageSummary>, storage_id: u64) -> Option<int> {
    if exists|i: int| 0 <= i < storages.len() && storages[i].id == storage_id {
        Some(
            choose|i: int|
                0 <= i < storages.len() && storages[i].id == storage_id && forall|j: int|
                    0 <= j < i ==> storages[j].id != storage_id,
        )
    } else {
        None
    }
}

/// Whether a device and its storage `storage_id` (the first with that id)
/// are both writable; false when it has no such storage.
pub open spec fn storage_is_writable(summary: DeviceSummary, storage_id: u64) -> bool {
    match storage_index(summary.storages@, storage_id) {
        Some(i) => summary.writable && summary.storages@[i].writable,
        None => false,
    }
}

/// Whether a device and its storage `storage_id` are both writable.
pub fn storage_writable(summary: &DeviceSummary, storage_id: u64) -> (r: bool)
    ensures
        r == storage_is_writable(*summary, storage_id),
{
    let storages = &summary.storages;
    let mut i: usize = 0;
    while i < storages.len()
        invariant
            storages@ == summary.storages@,
            i <= storages@.len(),
            forall|j: int| 0 <= j < i ==> storages@[j].id != storage_id,
        decreases storages.len() - i,
    {
        if storages[i].id == storage_id {
            proof {
                let k = choose|k: int|
                    0 <= k < storages@.len() && storages@[k].id == storage_id && forall|j: int|
                        0 <= j < k ==> storages@[j].id != storage_id;
                assert(k == i) by {
                    if k < i {
                    } else if k > i {
                        assert(storages@[i as int].id == storage_id);
                    }
                }
            }
            return summary.writable && storages[i].writable;
        }
        i = i + 1;
    }
    false
}

/// Whether a device has a storage with id `storage_id`.
pub fn has_storage(summary: &DeviceSummary, storage_id: u64) -> (r: bool)
    ensures
        r == (storage_index(summary.storages@, storage_id) is Some),
{
    let storages = &summary.storages;
    let mut i: usize = 0;
    while i < storages.len()
        invariant
            storages@ == summary.storages@,
            i <= storages@.len(),
            forall|j: int| 0 <= j < i ==> storages@[j].id != storage_id,
        decreases storages.len() - i,
    {
        if storages[i].id == storage_id {
            proof {
                assert(storages@[i as int].id == storage_id);
            }
            return true;
        }
        i = i + 1;
    }
    false
}

/// Opening the root directory of storage `storage_id` of a device: refused
/// as stale for a handle of an earlier connection or an unknown storage;
/// otherwise whether it is writable.
pub fn storage_directory(summary: &DeviceSummary, generation: u64, storage_id: u64) -> (r: Result<
    bool,
    Nfsstat3,
>)
    ensures
        r == (if summary.generation != generation || storage_index(
            summary.storages@,
            storage_id,
        ) is None {
            Err::<bool, Nfsstat3>(Nfsstat3::Stale)
        } else {
            Ok(storage_is_writable(*summary, storage_id))
        }),
{
    ensure_generation(summary, generation)?;
    if !has_storage(summary, storage_id) {
        return Err(Nfsstat3::Stale);
    }
    Ok(storage_writable(summary, storage_id))
}

/// Opening an object of a device as a directory: refused as stale for a
/// handle of an earlier connection, as not a directory for a file;
/// otherwise whether it is writable.
pub fn object_directory(summary: &DeviceSummary, generation: u64, storage_id: u64, is_dir: bool) -> (r:
    Result<bool, Nfsstat3>)
    ensures
        r == (if summary.generation != generation {
            Err::<bool, Nfsstat3>(Nfsstat3::Stale)
        } else if !is_dir {
            Err(Nfsstat3::Notdir)
        } else {
            Ok(storage_is_writable(*summary, storage_id))
        }),
{
    ensure_generation(summary, generation)?;
    if !is_dir {
        return Err(Nfsstat3::Notdir);
    }
    Ok(storage_writable(summary, storage_id))
}

/// The parent directory of an object whose MTP parent is `parent`: the
/// storage root for parent 0, the parent object otherwise.
pub fn object_parent(device_key: &String, generation: u64, storage_id: u64, parent: u64) -> (r:
    NodeHandle)
    ensures
        r@ == (if parent == 0 {
            NodeHandleView::Storage { device_key: device_key@, generation, storage_id }
        } else {
            NodeHandleView::Object {
                device_key: device_key@,
                generation,
                storage_id,
                object_id: parent,
            }
        }),
{
    if parent == 0 {
        NodeHandle::Storage { device_key: device_key.clone(), generation, storage_id }
    } else {
        NodeHandle::Object { device_key: device_key.clone(), generation, storage_id, object_id: parent }
    }
}

/// The directory a staged file lives in: the storage root for no parent,
/// the parent object otherwise.
pub fn staged_parent(device_key: &String, generation: u64, storage_id: u64, parent: Option<u64>) -> (r:
    NodeHandle)
    ensures
        r@ == (match parent {
            None => NodeHandleView::Storage { device_key: device_key@, generation, storage_id },
            Some(p) => NodeHandleView::Object {
                device_key: device_key@,
                generation,
                storage_id,
                object_id: p,
            },
        }),
{
    match parent {
        None => NodeHandle::Storage { device_key: device_key.clone(), generation, storage_id },
        Some(p) => NodeHandle::Object {
            device_key: device_key.clone(),
            generation,
            storage_id,
            object_id: p,
        },
    }
}

/// The parent of a node that the handle alone determines: none for the
/// root, the root for a device, the device for a storage. Objects and
/// staged files need the backend (`None` here).
pub fn virtual_parent(handle: &NodeHandle) -> (r: Option<Option<NodeHandle>>)
    ensures
        match handle@ {
            NodeHandleView::Root => r == Some(None::<NodeHandle>),
            NodeHandleView::Device { .. } => r matches Some(Some(p)) && p@ == NodeHandleView::Root,
            NodeHandleView::Storage { device_key, generation, .. } => r matches Some(Some(p)) && p@
                == NodeHandleView::Device { key: device_key, generation },
            _ => r is None,
        },
{
    match handle {
        NodeHandle::Root => Some(None),
        NodeHandle::Device { .. } => Some(Some(NodeHandle::Root)),
        NodeHandle::Storage { device_key, generation, .. } => Some(
            Some(NodeHandle::Device { key: device_key.clone(), generation: *generation }),
        ),
        _ => None,
    }
}

/// What a rename of an object on the device takes: a move when it changes
/// storage or directory, and a rename when it changes name.
pub fn rename_steps(
    storage_id: u64,
    source_parent: Option<u64>,
    destination_storage: u64,
    destination_parent: Option<u64>,
    from_name: &str,
    to_name: &str,
) -> (r: (bool, bool))
    ensures
        r.0 == (storage_id != destination_storage || source_parent != destination_parent),
        r.1 == (from_name@ != to_name@),
{
    let same_parent = match (source_parent, destination_parent) {
        (None, None) => true,
        (Some(a), Some(b)) => a == b,
        _ => false,
    };
    let moves = storage_id != destination_storage || !same_parent;
    (moves, !str_equals(from_name, to_name))
}

/// The largest read a reply carries: what the client asked for, at most
/// `MAX_IO_SIZE` bytes.
pub fn read_count(count: u32) -> (r: u32)
    ensures
        r == (if count < MAX_IO_SIZE {
            count
        } else {
            MAX_IO_SIZE
        }),
{
    if count < MAX_IO_SIZE {
        count
    } else {
        MAX_IO_SIZE
    }
}

/// Whether a read of `len` bytes at `offset` reaches the end of a file of
/// `size` bytes.
pub fn read_reaches_end(offset: u64, len: u64, size: u64) -> (r: bool)
    ensures
        r == ((if offset + len > u64::MAX {
            u64::MAX as int
        } else {
            offset + len
        }) >= size),
{
    offset.saturating_add(len) >= size
}

/// Refuses a write of more than `MAX_IO_SIZE` bytes.
pub fn check_write_size(len: usize) -> (r: Result<(), Nfsstat3>)
    ensures
        r == (if len > MAX_IO_SIZE {
            Err::<(), Nfsstat3>(Nfsstat3::Fbig)
        } else {
            Ok(())
        }),
{
    if len > MAX_IO_SIZE as usize {
        Err(Nfsstat3::Fbig)
    } else {
        Ok(())
    }
}

/// How a client asks CREATE to treat an existing name.
#[derive(Debug, Clone, Copy, PartialEq, Eq, Structural)]
pub enum CreateMode {
    /// Reuse an existing file.
    Unchecked,
    /// Fail when the name exists.
    Guarded,
    /// Create exactly once.
    Exclusive,
}

/// CREATE of a name that exists: only an unchecked creation reuses it, and
/// never a directory.
pub fn create_over_existing(mode: CreateMode, existing_is_dir: bool) -> (r: Result<(), Nfsstat3>)
    ensures
        r == (if mode != CreateMode::Unchecked {
            Err::<(), Nfsstat3>(Nfsstat3::Exist)
        } else if existing_is_dir {
            Err(Nfsstat3::Isdir)
        } else {
            Ok(())
        }),
{
    match mode {
        CreateMode::Unchecked => if existing_is_dir {
            Err(Nfsstat3::Isdir)
        } else {
            Ok(())
        },
        _ => Err(Nfsstat3::Exist),
    }
}

/// SETATTR with a guard: refused unless the node's change time is the one
/// the client saw.
pub fn check_ctime_guard(current: Nfstime3, guard: Option<Nfstime3>) -> (r: Result<(), Nfsstat3>)
    ensures
        r == (match guard {
            Some(g) => if g == current {
                Ok::<(), Nfsstat3>(())
            } else {
                Err(Nfsstat3::NotSync)
            },
            None => Ok(()),
        }),
{
    match guard {
        Some(g) => if g.seconds == current.seconds && g.nseconds == current.nseconds {
            Ok(())
        } else {
            Err(Nfsstat3::NotSync)
        },
        None => Ok(()),
    }
}

/// Changing a directory's entries needs it writable.
pub fn check_writable(writable: bool) -> (r: Result<(), Nfsstat3>)
    ensures
        r == (if writable {
            Ok::<(), Nfsstat3>(())
        } else {
            Err(Nfsstat3::Rofs)
        }),
{
    if writable {
        Ok(())
    } else {
        Err(Nfsstat3::Rofs)
    }
}

/// REMOVE takes files and RMDIR directories.
pub fn check_removal(is_dir: bool, removing_directory: bool) -> (r: Result<(), Nfsstat3>)
    ensures
        r == (if is_dir && !removing_directory {
            Err::<(), Nfsstat3>(Nfsstat3::Isdir)
        } else if !is_dir && removing_directory {
            Err(Nfsstat3::Notdir)
        } else {
            Ok(())
        }),
{
    if is_dir && !removing_directory {
        Err(Nfsstat3::Isdir)
    } else if !is_dir && removing_directory {
        Err(Nfsstat3::Notdir)
    } else {
        Ok(())
    }
}

/// RENAME stays on one device, between writable directories.
pub fn check_rename(
    source_device: &str,
    destination_device: &str,
    source_writable: bool,
    destination_writable: bool,
) -> (r: Result<(), Nfsstat3>)
    ensures
        r == (if source_device@ != destination_device@ {
            Err::<(), Nfsstat3>(Nfsstat3::Xdev)
        } else if !source_writable || !destination_writable {
            Err(Nfsstat3::Rofs)
        } else {
            Ok(())
        }),
{
    if !str_equals(source_device, destination_device) {
        Err(Nfsstat3::Xdev)
    } else if !source_writable || !destination_writable {
        Err(Nfsstat3::Rofs)
    } else {
        Ok(())
    }
}

/// How stable a client asks a WRITE to be.
#[derive(Debug, Clone, Copy, PartialEq, Eq, Structural)]
pub enum StableHow {
    Unstable,
    DataSync,
    FileSync,
}

/// Whether a WRITE uploads the file before it replies: unless the client
/// allows an unstable write, which is uploaded a little later.
pub fn commits_at_once(stable: StableHow) -> (r: bool)
    ensures
        r == (stable != StableHow::Unstable),
{
    match stable {
        StableHow::Unstable => false,
        _ => true,
    }
}

/// Where writes to a node go: a staged file to itself, a device object to
/// a staged copy of it; other nodes are directories.
pub fn staging_target(handle: &NodeHandle) -> (r: Result<Option<u128>, Nfsstat3>)
    ensures
        r == (match handle@ {
            NodeHandleView::Staged(id) => Ok::<Option<u128>, Nfsstat3>(Some(id)),
            NodeHandleView::Object { .. } => Ok(None),
            _ => Err(Nfsstat3::Isdir),
        }),
{
    match handle {
        NodeHandle::Staged(id) => Ok(Some(*id)),
        NodeHandle::Object { .. } => Ok(None),
        _ => Err(Nfsstat3::Isdir),
    }
}


/// How a lookup reads a name: the directory itself, its parent, or an entry.
#[derive(Debug, Clone, Copy, PartialEq, Eq, Structural)]
pub enum LookupName {
    Current,
    Parent,
    Entry,
}

/// Classifies a looked-up name: "." is the directory itself and ".." its
/// parent; every other name is an entry.
pub fn lookup_name(name: &str) -> (r: LookupName)
    ensures
        r == (if name@ == seq!['.'] {
            LookupName::Current
        } else if name@ == seq!['.', '.'] {
            LookupName::Parent
        } else {
            LookupName::Entry
        }),
{
    let chars = chars_of(name);
    if chars.len() == 1 && chars[0] == '.' {
        assert(name@ =~= seq!['.']);
        LookupName::Current
    } else if chars.len() == 2 && chars[0] == '.' && chars[1] == '.' {
        assert(name@ =~= seq!['.', '.']);
        LookupName::Parent
    } else {
        LookupName::Entry
    }
}

/// The handle ".." finds: the parent, or the root where there is none.
pub fn parent_or_root(parent: Option<NodeHandle>) -> (r: NodeHandle)
    ensures
        r@ == (match parent {
            Some(h) => h@,
            None => NodeHandleView::Root,
        }),
{
    match parent {
        Some(h) => h,
        None => NodeHandle::Root,
    }
}

/// Whether position `i` holds the first occurrence of `name` in `names`.
pub open spec fn first_named(names: Seq<Seq<char>>, name: Seq<char>, i: int) -> bool {
    &&& 0 <= i < names.len()
    &&& names[i] == name
    &&& forall|j: int| 0 <= j < i ==> names[j] != name
}

/// The position of the first entry of `names` equal to `name`, if any.
fn first_position(names: &Vec<&str>, name: &str) -> (r: Option<usize>)
    ensures
        match r {
            Some(i) => first_named(names@.map_values(|n: &str| n@), name@, i as int),
            None => forall|j: int| 0 <= j < names@.len() ==> names@[j]@ != name@,
        },
{
    let ghost views = names@.map_values(|n: &str| n@);
    let mut i: usize = 0;
    while i < names.len()
        invariant
            i <= names@.len(),
            views == names@.map_values(|n: &str| n@),
            forall|j: int| 0 <= j < i ==> names@[j]@ != name@,
        decreases names.len() - i,
    {
        if str_equals(names[i], name) {
            assert(views[i as int] == name@);
            return Some(i);
        }
        i = i + 1;
    }
    None
}

/// The names of named entries as character sequences.
pub open spec fn entry_names<T>(named: Seq<(String, T)>) -> Seq<Seq<char>> {
    named.map_values(|e: (String, T)| e.0@)
}

/// The device directory that a lookup of `name` in the root finds: the
/// first device shown under that name; `Noent` when none is.
pub fn lookup_device(named: &Vec<(String, DeviceSummary)>, name: &str) -> (r: Result<
    NodeHandle,
    Nfsstat3,
>)
    ensures
        match r {
            Ok(h) => exists|i: int|
                first_named(entry_names(named@), name@, i) && h@ == (NodeHandleView::Device {
                    key: named@[i].1.key@,
                    generation: named@[i].1.generation,
                }),
            Err(e) => e == Nfsstat3::Noent && forall|j: int|
                0 <= j < named@.len() ==> named@[j].0@ != name@,
        },
{
    let mut names: Vec<&str> = Vec::new();
    let mut k: usize = 0;
    while k < named.len()
        invariant
            k <= named@.len(),
            names@.len() == k,
            forall|j: int| 0 <= j < k ==> names@[j]@ == named@[j].0@,
        decreases named.len() - k,
    {
        names.push(named[k].0.as_str());
        k = k + 1;
    }
    assert(names@.map_values(|n: &str| n@) =~= entry_names(named@));
    match first_position(&names, name) {
        Some(i) => {
            assert(first_named(entry_names(named@), name@, i as int));
            let summary = &named[i].1;
            let h = NodeHandle::Device { key: summary.key.clone(), generation: summary.generation };
            assert(h@ == (NodeHandleView::Device {
                key: named@[i as int].1.key@,
                generation: named@[i as int].1.generation,
            }));
            Ok(h)
        },
        None => {
            assert forall|j: int| 0 <= j < named@.len() implies named@[j].0@ != name@ by {
                assert(names@[j]@ == named@[j].0@);
            }
            Err(Nfsstat3::Noent)
        },
    }
}

/// The storage directory that a lookup of `name` in the directory of a
/// device finds: the first storage shown under that name; `Noent` when
/// none is.
pub fn lookup_storage(
    named: &Vec<(String, StorageSummary)>,
    device_key: &String,
    generation: u64,
    name: &str,
) -> (r: Result<NodeHandle, Nfsstat3>)
    ensures
        match r {
            Ok(h) => exists|i: int|
                first_named(entry_names(named@), name@, i) && h@ == (NodeHandleView::Storage {
                    device_key: device_key@,
                    generation,
                    storage_id: named@[i].1.id,
                }),
            Err(e) => e == Nfsstat3::Noent && forall|j: int|
                0 <= j < named@.len() ==> named@[j].0@ != name@,
        },
{
    let mut names: Vec<&str> = Vec::new();
    let mut k: usize = 0;
    while k < named.len()
        invariant
            k <= named@.len(),
            names@.len() == k,
            forall|j: int| 0 <= j < k ==> names@[j]@ == named@[j].0@,
        decreases named.len() - k,
    {
        names.push(named[k].0.as_str());
        k = k + 1;
    }
    assert(names@.map_values(|n: &str| n@) =~= entry_names(named@));
    match first_position(&names, name) {
        Some(i) => {
            assert(first_named(entry_names(named@), name@, i as int));
            Ok(
            NodeHandle::Storage {
                device_key: device_key.clone(),
                generation,
                storage_id: named[i].1.id,
            },
        )
        },
        None => {
            assert forall|j: int| 0 <= j < named@.len() implies named@[j].0@ != name@ by {
                assert(names@[j]@ == named@[j].0@);
            }
            Err(Nfsstat3::Noent)
        },
    }
}

/// The device object that a lookup of `name` in a listed directory finds:
/// the first listed object with that name; `Noent` when none has it.
pub fn lookup_object(
    objects: &Vec<ObjectEntry>,
    device_key: &String,
    generation: u64,
    storage_id: u64,
    name: &str,
) -> (r: Result<NodeHandle, Nfsstat3>)
    ensures
        match r {
            Ok(h) => exists|i: int|
                first_named(objects@.map_values(|o: ObjectEntry| o.name@), name@, i) && h@
                    == (NodeHandleView::Object {
                    device_key: device_key@,
                    generation,
                    storage_id,
                    object_id: objects@[i].handle,
                }),
            Err(e) => e == Nfsstat3::Noent && forall|j: int|
                0 <= j < objects@.len() ==> objects@[j].name@ != name@,
        },
{
    let mut names: Vec<&str> = Vec::new();
    let mut k: usize = 0;
    while k < objects.len()
        invariant
            k <= objects@.len(),
            names@.len() == k,
            forall|j: int| 0 <= j < k ==> names@[j]@ == objects@[j].name@,
        decreases objects.len() - k,
    {
        names.push(objects[k].name.as_str());
        k = k + 1;
    }
    assert(names@.map_values(|n: &str| n@) =~= objects@.map_values(|o: ObjectEntry| o.name@));
    match first_position(&names, name) {
        Some(i) => {
            assert(first_named(objects@.map_values(|o: ObjectEntry| o.name@), name@, i as int));
            Ok(
            NodeHandle::Object {
                device_key: device_key.clone(),
                generation,
                storage_id,
                object_id: objects[i].handle,
            },
        )
        },
        None => {
            assert forall|j: int| 0 <= j < objects@.len() implies objects@[j].name@ != name@ by {
                assert(names@[j]@ == objects@[j].name@);
            }
            Err(Nfsstat3::Noent)
        },
    }
}

/// The handle under which a staged file found by a lookup is answered:
/// the device object it was uploaded as, else the one it was copied from,
/// else the staged file itself.
pub fn staged_lookup_handle(
    device_key: &String,
    generation: u64,
    storage_id: u64,
    id: u128,
    remote: Option<u64>,
    origin: Option<u64>,
) -> (r: NodeHandle)
    ensures
        r@ == (match (if remote is Some { remote } else { origin }) {
            Some(object_id) => NodeHandleView::Object {
                device_key: device_key@,
                generation,
                storage_id,
                object_id,
            },
            None => NodeHandleView::Staged(id),
        }),
{
    let chosen = match remote {
        Some(object_id) => Some(object_id),
        None => origin,
    };
    match chosen {
        Some(object_id) => NodeHandle::Object {
            device_key: device_key.clone(),
            generation,
            storage_id,
            object_id,
        },
        None => NodeHandle::Staged(id),
    }
}

} // verus!
