//! The file-system store: the inode table, the path index and the per-inode
//! byte storage, with the invariants that tie them together.

use crate::collections::{lemma_value_replaced, HashMap};
use crate::path::{is_absolute_seq, root_seq, PathBuf};
use vstd::prelude::*;

verus! {

/// Slots made up front in the path index.
pub const PATH_MAP_CAP: usize = 256;

/// Slots made up front in the file-data map.
pub const FILES_CAP: usize = 256;

/// What an inode stands for.
#[derive(Debug)]
pub enum InodeKind {
    File,
    Directory,
    SymbolicLink(PathBuf),
}

/// One read/write/execute triple.
#[derive(Debug, Clone, Copy, PartialEq, Eq, Structural)]
pub struct Permission {
    pub read: bool,
    pub write: bool,
    pub execute: bool,
}

/// The owner, group and other triples.
#[derive(Debug, Clone, Copy, PartialEq, Eq, Structural)]
pub struct Permissions {
    pub owner: Permission,
    pub group: Permission,
    pub other: Permission,
}

/// The triples that the nine low bits of `m` describe, in the octal layout
/// 0o400 (owner read) down to 0o001 (other execute).
pub open spec fn perms_of_mode(m: u16) -> Permissions {
    Permissions {
        owner: Permission {
            read: m & 0o400 != 0,
            write: m & 0o200 != 0,
            execute: m & 0o100 != 0,
        },
        group: Permission {
            read: m & 0o040 != 0,
            write: m & 0o020 != 0,
            execute: m & 0o010 != 0,
        },
        other: Permission {
            read: m & 0o004 != 0,
            write: m & 0o002 != 0,
            execute: m & 0o001 != 0,
        },
    }
}

/// `v` where `b` holds, else nothing.
pub open spec fn bit_if(b: bool, v: u16) -> u16 {
    if b {
        v
    } else {
        0
    }
}

/// The nine-bit mode that `p` describes.
pub open spec fn mode_of_perms(p: Permissions) -> u16 {
    bit_if(p.owner.read, 0o400) | bit_if(p.owner.write, 0o200) | bit_if(p.owner.execute, 0o100)
        | bit_if(p.group.read, 0o040) | bit_if(p.group.write, 0o020) | bit_if(
        p.group.execute,
        0o010,
    ) | bit_if(p.other.read, 0o004) | bit_if(p.other.write, 0o002) | bit_if(p.other.execute, 0o001)
}

/// Converting a mode to triples and back keeps exactly its nine low bits.
pub proof fn lemma_mode_round_trip(m: u16)
    ensures
        mode_of_perms(perms_of_mode(m)) == m & 0o777,
{
    let p = perms_of_mode(m);
    assert((if m & 0o400 != 0 { 0o400u16 } else { 0u16 }) | (if m & 0o200 != 0 {
        0o200u16
    } else {
        0u16
    }) | (if m & 0o100 != 0 { 0o100u16 } else { 0u16 }) | (if m & 0o040 != 0 {
        0o040u16
    } else {
        0u16
    }) | (if m & 0o020 != 0 { 0o020u16 } else { 0u16 }) | (if m & 0o010 != 0 {
        0o010u16
    } else {
        0u16
    }) | (if m & 0o004 != 0 { 0o004u16 } else { 0u16 }) | (if m & 0o002 != 0 {
        0o002u16
    } else {
        0u16
    }) | (if m & 0o001 != 0 { 0o001u16 } else { 0u16 }) == m & 0o777) by (bit_vector);
}

impl From<u16> for Permissions {
    fn from(mode: u16) -> Permissions {
        Permissions {
            owner: Permission {
                read: mode & 0o400 != 0,
                write: mode & 0o200 != 0,
                execute: mode & 0o100 != 0,
            },
            group: Permission {
                read: mode & 0o040 != 0,
                write: mode & 0o020 != 0,
                execute: mode & 0o010 != 0,
            },
            other: Permission {
                read: mode & 0o004 != 0,
                write: mode & 0o002 != 0,
                execute: mode & 0o001 != 0,
            },
        }
    }
}

impl vstd::std_specs::convert::FromSpecImpl<u16> for Permissions {
    open spec fn obeys_from_spec() -> bool {
        true
    }

    open spec fn from_spec(v: u16) -> Permissions {
        perms_of_mode(v)
    }
}

impl Default for Permissions {
    fn default() -> (r: Permissions)
        ensures
            r == perms_of_mode(0),
    {
        let none = Permission { read: false, write: false, execute: false };
        proof {
            assert(0u16 & 0o400 == 0 && 0u16 & 0o200 == 0 && 0u16 & 0o100 == 0 && 0u16 & 0o040
                == 0 && 0u16 & 0o020 == 0 && 0u16 & 0o010 == 0 && 0u16 & 0o004 == 0 && 0u16
                & 0o002 == 0 && 0u16 & 0o001 == 0) by (bit_vector);
        }
        Permissions { owner: none, group: none, other: none }
    }
}

impl Permissions {
    /// The nine-bit mode these triples describe.
    pub fn mode(&self) -> (r: u16)
        ensures
            r == mode_of_perms(*self),
    {
        (if self.owner.read {
            0o400u16
        } else {
            0
        }) | (if self.owner.write {
            0o200u16
        } else {
            0
        }) | (if self.owner.execute {
            0o100u16
        } else {
            0
        }) | (if self.group.read {
            0o040u16
        } else {
            0
        }) | (if self.group.write {
            0o020u16
        } else {
            0
        }) | (if self.group.execute {
            0o010u16
        } else {
            0
        }) | (if self.other.read {
            0o004u16
        } else {
            0
        }) | (if self.other.write {
            0o002u16
        } else {
            0
        }) | (if self.other.execute {
            0o001u16
        } else {
            0
        })
    }
}

/// The metadata of one file, directory or symbolic link. Its payload lives in
/// the file-data map under `number`.
#[derive(Debug)]
pub struct Inode {
    pub number: u64,
    pub size: u64,
    pub permissions: Permissions,
    pub user_id: u32,
    pub group_id: u32,
    pub ctime: u64,
    pub mtime: u64,
    pub atime: u64,
    pub kind: InodeKind,
}

impl Inode {
    /// An inode with the given fields.
    pub fn new(
        number: u64,
        size: u64,
        permissions: Permissions,
        user_id: u32,
        group_id: u32,
        ctime: u64,
        mtime: u64,
        atime: u64,
        kind: InodeKind,
    ) -> (r: Inode)
        ensures
            r == (Inode {
                number,
                size,
                permissions,
                user_id,
                group_id,
                ctime,
                mtime,
                atime,
                kind,
            }),
    {
        Inode { number, size, permissions, user_id, group_id, ctime, mtime, atime, kind }
    }
}

/// A fresh inode: no size, no owner, no times.
pub open spec fn fresh_inode(number: u64, permissions: Permissions, kind: InodeKind) -> Inode {
    Inode {
        number,
        size: 0,
        permissions,
        user_id: 0,
        group_id: 0,
        ctime: 0,
        mtime: 0,
        atime: 0,
        kind,
    }
}

/// `i` with its permissions set to `p`.
pub open spec fn with_permissions(i: Inode, p: Permissions) -> Inode {
    Inode { permissions: p, ..i }
}

/// `i` with its owner set to `user_id` and `group_id`.
pub open spec fn with_owner(i: Inode, user_id: u32, group_id: u32) -> Inode {
    Inode { user_id, group_id, ..i }
}

/// `i` with its size set to `size`.
pub open spec fn with_size(i: Inode, size: u64) -> Inode {
    Inode { size, ..i }
}

/// `d` cut or zero-filled to `len` bytes.
pub open spec fn resized(d: Seq<u8>, len: nat) -> Seq<u8> {
    Seq::new(len, |i: int| if i < d.len() { d[i] } else { 0u8 })
}

/// `d` grown with zeroes to at least `pos + b.len()` bytes, then `b` copied in
/// at `pos`.
pub open spec fn written_at(d: Seq<u8>, pos: nat, b: Seq<u8>) -> Seq<u8> {
    let len = if pos + b.len() > d.len() {
        pos + b.len()
    } else {
        d.len()
    };
    Seq::new(
        len,
        |i: int|
            if pos <= i < pos + b.len() {
                b[i - pos]
            } else if i < d.len() {
                d[i]
            } else {
                0u8
            },
    )
}

/// Cuts or zero-fills `data` to `len` bytes.
fn resize_bytes(data: &mut Vec<u8>, len: usize)
    ensures
        final(data)@ == resized(old(data)@, len as nat),
{
    if data.len() > len {
        data.truncate(len);
    } else if data.len() < len {
        data.resize(len, 0);
    }
    assert(data@ == resized(old(data)@, len as nat));
}

/// Copies `buf` into `data` at `pos`, growing `data` with zeroes first.
fn write_bytes_at(data: &mut Vec<u8>, pos: usize, buf: &[u8])
    requires
        pos + buf@.len() <= usize::MAX,
    ensures
        final(data)@ == written_at(old(data)@, pos as nat, buf@),
{
    let end = pos + buf.len();
    if end > data.len() {
        data.resize(end, 0);
    }
    let ghost grown = data@;
    let mut i: usize = 0;
    while i < buf.len()
        invariant
            end == pos + buf@.len(),
            data@.len() == grown.len(),
            grown.len() >= end,
            i <= buf@.len(),
            forall|j: int| 0 <= j < data@.len() ==> #[trigger] data@[j] == if pos <= j < pos + i {
                buf@[j - pos]
            } else {
                grown[j]
            },
        decreases buf@.len() - i,
    {
        data[pos + i] = buf[i];
        i = i + 1;
    }
    assert(data@ == written_at(old(data)@, pos as nat, buf@));
}

/// The inode table, the file-data map and the path index.
#[derive(Debug)]
pub struct FileSystem {
    /// The inodes; an inode's number is its position here.
    pub inodes: Vec<Inode>,
    /// The number the next inode gets.
    pub next_inode_number: u64,
    /// An absolute path that relative paths are resolved against.
    pub current_directory: PathBuf,
    /// The root directory as it was made.
    pub root_inode: Inode,
    /// Payloads, by inode number.
    pub files: HashMap<u64, Vec<u8>, FILES_CAP>,
    /// Absolute paths, each to the inode it names.
    pub path_map: HashMap<PathBuf, u64, PATH_MAP_CAP>,
}

impl Default for FileSystem {
    fn default() -> (r: FileSystem)
        ensures
            r.wf(),
            r.index() == map![root_seq() => 0u64],
            r.payloads() == map![0u64 => Seq::<u8>::empty()],
            r.inodes@ == seq![fresh_inode(0, perms_of_mode(0), InodeKind::Directory)],
            r.next_inode_number == 1,
            r.current_directory@ == root_seq(),
    {
        FileSystem::new()
    }
}

impl FileSystem {
    /// The path index.
    pub open spec fn index(&self) -> Map<Seq<u8>, u64> {
        self.path_map@
    }

    /// The payloads.
    pub open spec fn payloads(&self) -> Map<u64, Seq<u8>> {
        self.files@.map_values(|v: Vec<u8>| v@)
    }

    /// The payload of `n`, or nothing where it has none.
    pub open spec fn payload_or_empty(&self, n: u64) -> Seq<u8> {
        if self.payloads().contains_key(n) {
            self.payloads()[n]
        } else {
            Seq::empty()
        }
    }

    /// Inode `n` of the table.
    pub open spec fn inode(&self, n: u64) -> Inode {
        self.inodes@[n as int]
    }

    /// The store's invariants.
    pub open spec fn wf(&self) -> bool {
        &&& self.path_map.wf()
        &&& self.files.wf()
        &&& self.inodes@.len() == self.next_inode_number
        &&& self.inodes@.len() > 0
        &&& self.inodes@[0].kind is Directory
        &&& forall|i: int| 0 <= i < self.inodes@.len() ==> #[trigger] self.inodes@[i].number == i
        &&& forall|p: Seq<u8>| #[trigger]
            self.index().contains_key(p) ==> self.index()[p] < self.next_inode_number
        &&& forall|n: u64| #[trigger]
            self.payloads().contains_key(n) ==> n < self.next_inode_number && self.inode(n).size
                == self.payloads()[n].len()
        &&& forall|n: u64|
            n < self.next_inode_number && !self.payloads().contains_key(n) ==> (
            #[trigger] self.inode(n)).size == 0 && self.inode(n).kind is SymbolicLink
        &&& is_absolute_seq(self.current_directory@)
        &&& self.root_inode.number == 0
        &&& self.root_inode.kind is Directory
    }

    /// A store that holds the root directory `/`, inode 0, and nothing else.
    pub fn new() -> (r: FileSystem)
        ensures
            r.wf(),
            r.index() == map![root_seq() => 0u64],
            r.payloads() == map![0u64 => Seq::<u8>::empty()],
            r.inodes@ == seq![fresh_inode(0, perms_of_mode(0), InodeKind::Directory)],
            r.next_inode_number == 1,
            r.current_directory@ == root_seq(),
    {
        let root_inode = Inode::new(0, 0, Permissions::default(), 0, 0, 0, 0, 0, InodeKind::Directory);
        let root_copy = Inode::new(0, 0, Permissions::default(), 0, 0, 0, 0, 0, InodeKind::Directory);
        let mut inodes: Vec<Inode> = Vec::new();
        inodes.push(root_inode);
        let mut fs = FileSystem {
            inodes,
            next_inode_number: 1,
            current_directory: PathBuf::root(),
            root_inode: root_copy,
            files: HashMap::init(),
            path_map: HashMap::init(),
        };
        fs.path_map.insert(PathBuf::root(), 0);
        fs.files.insert(0, Vec::new());
        proof {
            assert(fs.index() == map![root_seq() => 0u64]);
            assert(fs.payloads() == map![0u64 => Seq::<u8>::empty()]);
            assert(fs.inodes@ == seq![fresh_inode(0, perms_of_mode(0), InodeKind::Directory)]);
        }
        fs
    }

    /// The inode that `path` names in the path index.
    pub fn lookup_inode_by_path(&self, path: &PathBuf) -> (r: Option<u64>)
        requires
            self.wf(),
        ensures
            r == (if self.index().contains_key(path@) {
                Some(self.index()[path@])
            } else {
                None
            }),
    {
        match self.path_map.get(path) {
            Some(n) => Some(*n),
            None => None,
        }
    }

    /// Makes the next inode, registers `path` for it, and gives it an empty
    /// payload unless it is a symbolic link.
    fn add_inode(&mut self, path: &PathBuf, permissions: Permissions, kind: InodeKind) -> (n: u64)
        requires
            old(self).wf(),
            old(self).next_inode_number < u64::MAX,
        ensures
            n == old(self).next_inode_number,
            final(self).wf(),
            final(self).next_inode_number == n + 1,
            final(self).inodes@ == old(self).inodes@.push(fresh_inode(n, permissions, kind)),
            final(self).index() == old(self).index().insert(path@, n),
            final(self).payloads() == (if kind is SymbolicLink {
                old(self).payloads()
            } else {
                old(self).payloads().insert(n, Seq::empty())
            }),
            final(self).current_directory@ == old(self).current_directory@,
            final(self).root_inode == old(self).root_inode,
    {
        let ghost before = *self;
        let n = self.next_inode_number;
        let payload = match kind {
            InodeKind::SymbolicLink(_) => false,
            _ => true,
        };
        self.next_inode_number = n + 1;
        self.inodes.push(Inode::new(n, 0, permissions, 0, 0, 0, 0, 0, kind));
        self.path_map.insert(path.clone(), n);
        if payload {
            self.files.insert(n, Vec::new());
        }
        proof {
            assert(self.inodes@ == before.inodes@.push(fresh_inode(n, permissions, kind)));
            if payload {
                assert(self.payloads() == before.payloads().insert(n, Seq::empty()));
            } else {
                assert(self.payloads() == before.payloads());
            }
            assert forall|p: Seq<u8>| #[trigger] self.index().contains_key(p) implies self.index()[p]
                < self.next_inode_number by {
                if p != path@ {
                    assert(before.index().contains_key(p));
                }
            }
            assert forall|m: u64| #[trigger] self.payloads().contains_key(m) implies m
                < self.next_inode_number && self.inode(m).size == self.payloads()[m].len() by {
                if m != n {
                    assert(before.payloads().contains_key(m));
                    assert(self.inode(m) == before.inode(m));
                }
            }
            assert forall|m: u64|
                m < self.next_inode_number && !self.payloads().contains_key(m) implies (
            #[trigger] self.inode(m)).size == 0 && self.inode(m).kind is SymbolicLink by {
                if m != n {
                    assert(self.inode(m) == before.inode(m));
                }
            }
            assert forall|i: int| 0 <= i < self.inodes@.len() implies #[trigger] self.inodes@[i].number
                == i by {
                if i < before.inodes@.len() {
                    assert(self.inodes@[i] == before.inodes@[i]);
                }
            }
        }
        n
    }

    /// Makes a file inode with the permissions of `mode & 0o777`, registers
    /// `path` for it and gives it an empty payload.
    pub fn create_file(&mut self, path: &PathBuf, mode: u32) -> (n: u64)
        requires
            old(self).wf(),
            old(self).next_inode_number < u64::MAX,
        ensures
            n == old(self).next_inode_number,
            final(self).wf(),
            final(self).next_inode_number == n + 1,
            final(self).inodes@ == old(self).inodes@.push(
                fresh_inode(n, perms_of_mode((mode & 0o777) as u16), InodeKind::File),
            ),
            final(self).index() == old(self).index().insert(path@, n),
            final(self).payloads() == old(self).payloads().insert(n, Seq::empty()),
            final(self).current_directory@ == old(self).current_directory@,
            final(self).root_inode == old(self).root_inode,
    {
        let m = (mode & 0o777) as u16;
        self.add_inode(path, Permissions::from(m), InodeKind::File)
    }

    /// Makes a directory inode with the permissions of `mode & 0o777`,
    /// registers `path` for it and gives it an empty payload.
    pub fn create_directory(&mut self, path: &PathBuf, mode: u32) -> (n: u64)
        requires
            old(self).wf(),
            old(self).next_inode_number < u64::MAX,
        ensures
            n == old(self).next_inode_number,
            final(self).wf(),
            final(self).next_inode_number == n + 1,
            final(self).inodes@ == old(self).inodes@.push(
                fresh_inode(n, perms_of_mode((mode & 0o777) as u16), InodeKind::Directory),
            ),
            final(self).index() == old(self).index().insert(path@, n),
            final(self).payloads() == old(self).payloads().insert(n, Seq::empty()),
            final(self).current_directory@ == old(self).current_directory@,
            final(self).root_inode == old(self).root_inode,
    {
        let m = (mode & 0o777) as u16;
        self.add_inode(path, Permissions::from(m), InodeKind::Directory)
    }

    /// Makes a symbolic-link inode that carries `target` and registers
    /// `link_path` for it; it gets no payload.
    pub fn create_symlink(&mut self, link_path: &PathBuf, target: PathBuf, mode: u32) -> (n: u64)
        requires
            old(self).wf(),
            old(self).next_inode_number < u64::MAX,
        ensures
            n == old(self).next_inode_number,
            final(self).wf(),
            final(self).next_inode_number == n + 1,
            final(self).inodes@ == old(self).inodes@.push(
                fresh_inode(
                    n,
                    perms_of_mode((mode & 0o777) as u16),
                    InodeKind::SymbolicLink(target),
                ),
            ),
            final(self).index() == old(self).index().insert(link_path@, n),
            final(self).payloads() == old(self).payloads(),
            final(self).current_directory@ == old(self).current_directory@,
            final(self).root_inode == old(self).root_inode,
    {
        let m = (mode & 0o777) as u16;
        self.add_inode(link_path, Permissions::from(m), InodeKind::SymbolicLink(target))
    }

    /// Sets the payload of `n` to `len` bytes, cutting or zero-filling it (an
    /// inode without a payload gets one), and its size to match.
    pub fn resize_payload(&mut self, n: u64, len: usize)
        requires
            old(self).wf(),
            n < old(self).next_inode_number,
        ensures
            final(self).wf(),
            final(self).payloads() == old(self).payloads().insert(
                n,
                resized(old(self).payload_or_empty(n), len as nat),
            ),
            final(self).inodes@ == old(self).inodes@.update(
                n as int,
                with_size(old(self).inode(n), len as u64),
            ),
            final(self).index() == old(self).index(),
            final(self).next_inode_number == old(self).next_inode_number,
            final(self).current_directory@ == old(self).current_directory@,
            final(self).root_inode == old(self).root_inode,
    {
        let ghost before = *self;
        let ghost a = self.files;
        let ghost mut nv: Vec<u8> = self.files@[n];
        let present = match self.files.get_mut(&n) {
            Some(data) => {
                resize_bytes(data, len);
                proof {
                    nv = *data;
                }
                true
            },
            None => false,
        };
        if present {
            proof {
                lemma_value_replaced(a, self.files, n, nv);
                assert(self.payloads() == before.payloads().insert(n, nv@));
            }
        } else {
            let mut fresh: Vec<u8> = Vec::new();
            resize_bytes(&mut fresh, len);
            self.files.insert(n, fresh);
            proof {
                assert(self.payloads() == before.payloads().insert(
                    n,
                    resized(before.payload_or_empty(n), len as nat),
                ));
            }
        }
        self.set_size(n, len as u64);
        proof {
            assert(self.index() == before.index());
            assert forall|m: u64| #[trigger] self.payloads().contains_key(m) implies m
                < self.next_inode_number && self.inode(m).size == self.payloads()[m].len() by {
                if m != n {
                    assert(before.payloads().contains_key(m));
                }
            }
            assert forall|m: u64|
                m < self.next_inode_number && !self.payloads().contains_key(m) implies (
            #[trigger] self.inode(m)).size == 0 && self.inode(m).kind is SymbolicLink by {
                assert(m != n);
                assert(!before.payloads().contains_key(m));
                assert(self.inode(m) == before.inode(m));
            }
        }
    }

    /// Copies `buf` into the payload of `n` at `pos`, growing it with zeroes
    /// first, and sets the size to match.
    pub fn write_payload(&mut self, n: u64, pos: usize, buf: &[u8])
        requires
            old(self).wf(),
            old(self).payloads().contains_key(n),
            pos + buf@.len() <= usize::MAX,
        ensures
            final(self).wf(),
            final(self).payloads() == old(self).payloads().insert(
                n,
                written_at(old(self).payloads()[n], pos as nat, buf@),
            ),
            final(self).inodes@ == old(self).inodes@.update(
                n as int,
                with_size(
                    old(self).inode(n),
                    written_at(old(self).payloads()[n], pos as nat, buf@).len() as u64,
                ),
            ),
            final(self).index() == old(self).index(),
            final(self).next_inode_number == old(self).next_inode_number,
            final(self).current_directory@ == old(self).current_directory@,
            final(self).root_inode == old(self).root_inode,
    {
        let ghost before = *self;
        let ghost a = self.files;
        let ghost mut nv: Vec<u8> = self.files@[n];
        let mut new_len: usize = 0;
        match self.files.get_mut(&n) {
            Some(data) => {
                write_bytes_at(data, pos, buf);
                new_len = data.len();
                proof {
                    nv = *data;
                }
            },
            None => {},
        }
        proof {
            lemma_value_replaced(a, self.files, n, nv);
            assert(self.payloads() == before.payloads().insert(n, nv@));
        }
        self.set_size(n, new_len as u64);
        proof {
            assert(self.index() == before.index());
            assert forall|m: u64| #[trigger] self.payloads().contains_key(m) implies m
                < self.next_inode_number && self.inode(m).size == self.payloads()[m].len() by {
                if m != n {
                    assert(before.payloads().contains_key(m));
                }
            }
            assert forall|m: u64|
                m < self.next_inode_number && !self.payloads().contains_key(m) implies (
            #[trigger] self.inode(m)).size == 0 && self.inode(m).kind is SymbolicLink by {
                assert(m != n);
                assert(!before.payloads().contains_key(m));
                assert(self.inode(m) == before.inode(m));
            }
        }
    }

    /// Points `path` at inode `n` in the path index.
    pub fn index_insert(&mut self, path: PathBuf, n: u64)
        requires
            old(self).wf(),
            n < old(self).next_inode_number,
        ensures
            final(self).wf(),
            final(self).index() == old(self).index().insert(path@, n),
            final(self).inodes == old(self).inodes,
            final(self).files == old(self).files,
            final(self).next_inode_number == old(self).next_inode_number,
            final(self).current_directory == old(self).current_directory,
            final(self).root_inode == old(self).root_inode,
    {
        let ghost k = path@;
        self.path_map.insert(path, n);
        proof {
            assert(self.payloads() == old(self).payloads());
            assert forall|m: u64|
                m < self.next_inode_number && !self.payloads().contains_key(m) implies (
            #[trigger] self.inode(m)).size == 0 && self.inode(m).kind is SymbolicLink by {
                assert(old(self).inode(m) == self.inode(m));
            }
            assert forall|p: Seq<u8>| #[trigger] self.index().contains_key(p) implies self.index()[p]
                < self.next_inode_number by {
                if p != k {
                    assert(old(self).index().contains_key(p));
                }
            }
        }
    }

    /// Makes `p` the working directory.
    pub fn set_current_directory(&mut self, p: PathBuf)
        requires
            old(self).wf(),
            is_absolute_seq(p@),
        ensures
            final(self).wf(),
            final(self).current_directory@ == p@,
            final(self).index() == old(self).index(),
            final(self).inodes == old(self).inodes,
            final(self).files == old(self).files,
            final(self).next_inode_number == old(self).next_inode_number,
            final(self).root_inode == old(self).root_inode,
    {
        self.current_directory = p;
        proof {
            assert(self.payloads() == old(self).payloads());
            assert(self.index() == old(self).index());
            assert forall|m: u64|
                m < self.next_inode_number && !self.payloads().contains_key(m) implies (
            #[trigger] self.inode(m)).size == 0 && self.inode(m).kind is SymbolicLink by {
                assert(old(self).inode(m) == self.inode(m));
            }
        }
    }

    /// Takes `path` out of the path index.
    pub fn index_remove(&mut self, path: &PathBuf)
        requires
            old(self).wf(),
        ensures
            final(self).wf(),
            final(self).index() == old(self).index().remove(path@),
            final(self).inodes == old(self).inodes,
            final(self).files == old(self).files,
            final(self).next_inode_number == old(self).next_inode_number,
            final(self).current_directory == old(self).current_directory,
            final(self).root_inode == old(self).root_inode,
    {
        self.path_map.remove(path);
        proof {
            assert(self.payloads() == old(self).payloads());
            assert forall|m: u64|
                m < self.next_inode_number && !self.payloads().contains_key(m) implies (
            #[trigger] self.inode(m)).size == 0 && self.inode(m).kind is SymbolicLink by {
                assert(old(self).inode(m) == self.inode(m));
            }
            assert forall|p: Seq<u8>| #[trigger] self.index().contains_key(p) implies self.index()[p]
                < self.next_inode_number by {
                assert(old(self).index().contains_key(p));
            }
        }
    }

    /// Sets the permissions of inode `n`.
    pub fn set_permissions(&mut self, n: u64, p: Permissions)
        requires
            old(self).wf(),
            n < old(self).next_inode_number,
        ensures
            final(self).wf(),
            final(self).inodes@ == old(self).inodes@.update(n as int, with_permissions(old(self).inode(n), p)),
            final(self).files == old(self).files,
            final(self).path_map == old(self).path_map,
            final(self).next_inode_number == old(self).next_inode_number,
            final(self).current_directory == old(self).current_directory,
            final(self).root_inode == old(self).root_inode,
    {
        let ghost before = *self;
        let len = self.inodes.len();
        assert(n < len);
        let slot = &mut self.inodes[n as usize];
        slot.permissions = p;
        proof {
            assert(self.index() == before.index());
            assert(self.payloads() == before.payloads());
            assert forall|m: u64| #[trigger] self.payloads().contains_key(m) implies m
                < self.next_inode_number && self.inode(m).size == self.payloads()[m].len() by {
                assert(before.payloads().contains_key(m));
            }
            assert forall|m: u64|
                m < self.next_inode_number && !self.payloads().contains_key(m) implies (
            #[trigger] self.inode(m)).size == 0 && self.inode(m).kind is SymbolicLink by {
                assert(!before.payloads().contains_key(m));
                assert(before.inode(m).size == 0 && before.inode(m).kind is SymbolicLink);
            }
            assert forall|i: int| 0 <= i < self.inodes@.len() implies #[trigger] self.inodes@[i].number
                == i by {
                assert(before.inodes@[i].number == i);
            }
        }
    }

    /// Sets the owner of inode `n`.
    pub fn set_owner(&mut self, n: u64, user_id: u32, group_id: u32)
        requires
            old(self).wf(),
            n < old(self).next_inode_number,
        ensures
            final(self).wf(),
            final(self).inodes@ == old(self).inodes@.update(
                n as int,
                with_owner(old(self).inode(n), user_id, group_id),
            ),
            final(self).files == old(self).files,
            final(self).path_map == old(self).path_map,
            final(self).next_inode_number == old(self).next_inode_number,
            final(self).current_directory == old(self).current_directory,
            final(self).root_inode == old(self).root_inode,
    {
        let ghost before = *self;
        let len = self.inodes.len();
        assert(n < len);
        let slot = &mut self.inodes[n as usize];
        slot.user_id = user_id;
        slot.group_id = group_id;
        proof {
            assert(self.index() == before.index());
            assert(self.payloads() == before.payloads());
            assert forall|m: u64| #[trigger] self.payloads().contains_key(m) implies m
                < self.next_inode_number && self.inode(m).size == self.payloads()[m].len() by {
                assert(before.payloads().contains_key(m));
            }
            assert forall|m: u64|
                m < self.next_inode_number && !self.payloads().contains_key(m) implies (
            #[trigger] self.inode(m)).size == 0 && self.inode(m).kind is SymbolicLink by {
                assert(!before.payloads().contains_key(m));
                assert(before.inode(m).size == 0 && before.inode(m).kind is SymbolicLink);
            }
            assert forall|i: int| 0 <= i < self.inodes@.len() implies #[trigger] self.inodes@[i].number
                == i by {
                assert(before.inodes@[i].number == i);
            }
        }
    }

    /// Sets the size field of inode `n`.
    fn set_size(&mut self, n: u64, size: u64)
        requires
            n < old(self).inodes@.len(),
            forall|i: int| 0 <= i < old(self).inodes@.len() ==> #[trigger] old(self).inodes@[i].number == i,
        ensures
            final(self).inodes@ == old(self).inodes@.update(n as int, with_size(old(self).inode(n), size)),
            final(self).next_inode_number == old(self).next_inode_number,
            final(self).current_directory == old(self).current_directory,
            final(self).root_inode == old(self).root_inode,
            final(self).files == old(self).files,
            final(self).path_map == old(self).path_map,
    {
        let ghost before = self.inodes@;
        let ghost old_inode = self.inode(n);
        let len = self.inodes.len();
        assert(n < len);
        let slot = &mut self.inodes[n as usize];
        slot.size = size;
        assert(self.inodes@ == before.update(n as int, with_size(old_inode, size)));
    }
}

/// A POSIX-like stat record.
#[derive(Debug, Clone, Copy, PartialEq, Eq, Structural)]
pub struct Stat {
    pub st_dev: u64,
    pub st_ino: u64,
    pub st_mode: u32,
    pub st_nlink: u32,
    pub st_uid: u32,
    pub st_gid: u32,
    pub st_rdev: u64,
    pub st_size: i64,
    pub st_blksize: i64,
    pub st_blocks: i64,
    pub st_atime: i64,
    pub st_mtime: i64,
    pub st_ctime: i64,
}

impl Default for Stat {
    fn default() -> (r: Stat)
        ensures
            r == (Stat {
                st_dev: 0,
                st_ino: 0,
                st_mode: 0,
                st_nlink: 0,
                st_uid: 0,
                st_gid: 0,
                st_rdev: 0,
                st_size: 0,
                st_blksize: 0,
                st_blocks: 0,
                st_atime: 0,
                st_mtime: 0,
                st_ctime: 0,
            }),
    {
        Stat {
            st_dev: 0,
            st_ino: 0,
            st_mode: 0,
            st_nlink: 0,
            st_uid: 0,
            st_gid: 0,
            st_rdev: 0,
            st_size: 0,
            st_blksize: 0,
            st_blocks: 0,
            st_atime: 0,
            st_mtime: 0,
            st_ctime: 0,
        }
    }
}

/// A directory-entry record.
#[derive(Debug, Clone, Copy)]
pub struct Dirent {
    pub d_ino: u64,
    pub d_off: i64,
    pub d_reclen: u16,
    pub d_type: u8,
    pub d_name: [u8; 256],
}

/// A directory-entry record of the 64-bit interface, laid out as `Dirent`.
#[derive(Debug, Clone, Copy)]
pub struct Dirent64 {
    pub d_ino: u64,
    pub d_off: i64,
    pub d_reclen: u16,
    pub d_type: u8,
    pub d_name: [u8; 256],
}

} // verus!
