//! The process-level I/O layer: the file-descriptor table, open-file
//! handles, the working directory, the creation mask and the syscall-shaped
//! operations. Every operation returns -1 on failure.

use crate::collections::HashMap;
use crate::filesystem::{
    fresh_inode, mode_of_perms, perms_of_mode, resized, with_owner, with_permissions, with_size,
    written_at, Dirent, FileSystem, Inode, InodeKind, Permissions, Stat,
};
use crate::collections::TableKey;
use crate::path::{file_name_seq, is_absolute_seq, join_seq, parent_seq, root_seq, PathBuf};
use vstd::prelude::*;
use vstd::slice::{slice_subrange, slice_to_vec};

verus! {

pub type FileDescriptor = i32;

/// Open flags.
pub const O_RDONLY: i32 = 0;

pub const O_WRONLY: i32 = 1;

pub const O_RDWR: i32 = 2;

pub const O_CREAT: i32 = 0o100;

pub const O_TRUNC: i32 = 0o1000;

pub const O_APPEND: i32 = 0o2000;

/// Origins for `lseek`.
pub const SEEK_SET: i32 = 0;

pub const SEEK_CUR: i32 = 1;

pub const SEEK_END: i32 = 2;

/// Bits of the mode that `access` checks.
pub const R_OK: i32 = 4;

pub const W_OK: i32 = 2;

pub const X_OK: i32 = 1;

/// Slots in the file-descriptor table.
pub const FD_TABLE_SIZE: usize = 1024;

/// The lowest descriptor handed out; 0, 1 and 2 are reserved.
pub const FIRST_FD: usize = 3;

/// Writes to this descriptor go to the host's line sink.
pub const STDOUT_FD: i32 = 1;

/// The creation mask a process starts with.
pub const DEFAULT_UMASK: u32 = 0o022;

/// Slots made up front for open-file handles.
pub const OPEN_FILES_CAP: usize = 256;

/// The byte that ends a stdout line.
pub const NEWLINE: u8 = 0x0a;

/// Bytes that one directory-entry record takes.
pub const DIRENT_RECORD_LEN: usize = 280;

/// Bytes of the name field of a directory-entry record.
pub const DIRENT_NAME_LEN: usize = 256;

/// The mutable state behind one descriptor.
#[derive(Debug, Clone, Copy, PartialEq, Eq, Structural)]
pub struct OpenFileHandle {
    pub inode_number: u64,
    pub position: u64,
    pub append_mode: bool,
}

/// The bytes of `lines`, one after the other.
pub open spec fn flatten(lines: Seq<Seq<u8>>) -> Seq<u8>
    decreases lines.len(),
{
    if lines.len() == 0 {
        Seq::empty()
    } else {
        flatten(lines.drop_last()) + lines.last()
    }
}

/// `s` holds a newline.
pub open spec fn has_newline(s: Seq<u8>) -> bool {
    exists|i: int| 0 <= i < s.len() && s[i] == NEWLINE
}

/// A complete line: it ends with its only newline.
pub open spec fn is_line(s: Seq<u8>) -> bool {
    s.len() > 0 && s.last() == NEWLINE && !has_newline(s.drop_last())
}

/// `after` extends the stdout state `before` by `buf`: the complete lines
/// in `before_lines ++ [before_pending] ++ buf` are queued, in order, and what
/// follows the last newline stays pending.
pub open spec fn stdout_extended(
    before_lines: Seq<Seq<u8>>,
    before_pending: Seq<u8>,
    after_lines: Seq<Seq<u8>>,
    after_pending: Seq<u8>,
    buf: Seq<u8>,
) -> bool {
    &&& flatten(after_lines) + after_pending == flatten(before_lines) + before_pending + buf
    &&& after_lines.len() >= before_lines.len()
    &&& after_lines.subrange(0, before_lines.len() as int) == before_lines
    &&& forall|i: int| before_lines.len() <= i < after_lines.len() ==> is_line(#[trigger] after_lines[i])
    &&& !has_newline(after_pending)
}

/// The bytes of each of `v`.
pub open spec fn line_views(v: Seq<Vec<u8>>) -> Seq<Seq<u8>> {
    v.map_values(|l: Vec<u8>| l@)
}

/// Appends `buf` to the pending bytes `line`, moving each completed line to
/// `ready`.
fn push_stdout(line: &mut Vec<u8>, ready: &mut Vec<Vec<u8>>, buf: &[u8])
    requires
        !has_newline(old(line)@),
    ensures
        stdout_extended(line_views(old(ready)@), old(line)@, line_views(final(ready)@), final(line)@, buf@),
{
    let ghost l0 = line_views(ready@);
    let ghost p0 = line@;
    proof {
        assert(l0.subrange(0, l0.len() as int) == l0);
        assert(flatten(l0) + p0 == flatten(l0) + p0 + buf@.subrange(0, 0));
    }
    let mut i: usize = 0;
    while i < buf.len()
        invariant
            i <= buf@.len(),
            stdout_extended(l0, p0, line_views(ready@), line@, buf@.subrange(0, i as int)),
        decreases buf@.len() - i,
    {
        let b = buf[i];
        let ghost lines_before = line_views(ready@);
        let ghost pending_before = line@;
        line.push(b);
        if b == NEWLINE {
            let mut done: Vec<u8> = Vec::new();
            std::mem::swap(&mut done, line);
            ready.push(done);
            proof {
                assert(line_views(ready@) == lines_before.push(done@));
                assert(lines_before.push(done@).drop_last() == lines_before);
                assert(done@ == pending_before.push(b));
                assert(done@.drop_last() == pending_before);
                assert(flatten(line_views(ready@)) == flatten(lines_before) + done@);
                assert(flatten(line_views(ready@)) + line@ == (flatten(lines_before)
                    + pending_before).push(b));
                assert(!has_newline(line@));
                assert forall|j: int| l0.len() <= j < line_views(ready@).len() implies is_line(
                    #[trigger] line_views(ready@)[j],
                ) by {
                    if j < lines_before.len() {
                        assert(line_views(ready@)[j] == lines_before[j]);
                    }
                }
                assert(line_views(ready@).subrange(0, l0.len() as int) == lines_before.subrange(
                    0,
                    l0.len() as int,
                ));
            }
        } else {
            proof {
                assert(line@ == pending_before.push(b));
                assert(flatten(line_views(ready@)) + line@ == (flatten(lines_before)
                    + pending_before).push(b));
                assert forall|j: int| 0 <= j < line@.len() implies line@[j] != NEWLINE by {
                    if j < pending_before.len() {
                        assert(line@[j] == pending_before[j]);
                    }
                }
            }
        }
        proof {
            assert(buf@.subrange(0, i + 1) == buf@.subrange(0, i as int).push(b));
            assert(flatten(l0) + p0 + buf@.subrange(0, i + 1) == (flatten(l0) + p0
                + buf@.subrange(0, i as int)).push(b));
        }
        i = i + 1;
    }
    assert(buf@.subrange(0, buf@.len() as int) == buf@);
}

/// Copies `d[start..]` into the front of `buf`, as much as fits.
fn fill_from(buf: &mut [u8], d: &[u8], start: usize) -> (n: usize)
    requires
        start < d@.len(),
    ensures
        n == (if old(buf)@.len() < d@.len() - start {
            old(buf)@.len() as int
        } else {
            d@.len() - start
        }),
        final(buf)@ == d@.subrange(start as int, start + n) + old(buf)@.subrange(
            n as int,
            old(buf)@.len() as int,
        ),
{
    let avail = d.len() - start;
    let n = if buf.len() < avail {
        buf.len()
    } else {
        avail
    };
    let ghost b0 = buf@;
    let mut i: usize = 0;
    while i < n
        invariant
            i <= n,
            n <= buf@.len(),
            start + n <= d.len(),
            buf@.len() == b0.len(),
            forall|j: int| 0 <= j < buf@.len() ==> #[trigger] buf@[j] == if j < i {
                d@[start + j]
            } else {
                b0[j]
            },
        decreases n - i,
    {
        buf[i] = d[start + i];
        i = i + 1;
    }
    assert(buf@ == d@.subrange(start as int, start + n) + b0.subrange(n as int, b0.len() as int));
    n
}

/// The file-type bits of `st_mode` for `k`.
pub open spec fn type_bits(k: InodeKind) -> u32 {
    match k {
        InodeKind::File => 0o100000,
        InodeKind::Directory => 0o040000,
        InodeKind::SymbolicLink(_) => 0o120000,
    }
}

/// The directory-entry type tag for `k`.
pub open spec fn dtype_of(k: InodeKind) -> u8 {
    match k {
        InodeKind::File => 8,
        InodeKind::Directory => 4,
        InodeKind::SymbolicLink(_) => 10,
    }
}

/// The stat record of inode `i`.
pub open spec fn stat_of(i: Inode) -> Stat {
    Stat {
        st_dev: 0,
        st_ino: i.number,
        st_mode: type_bits(i.kind) | (mode_of_perms(i.permissions) as u32),
        st_nlink: 1,
        st_uid: i.user_id,
        st_gid: i.group_id,
        st_rdev: 0,
        st_size: i.size as i64,
        st_blksize: 4096,
        st_blocks: (i.size / 512 + if i.size % 512 == 0 {
            0int
        } else {
            1int
        }) as i64,
        st_atime: i.atime as i64,
        st_mtime: i.mtime as i64,
        st_ctime: i.ctime as i64,
    }
}

/// Every bit of `mode` among `R_OK`, `W_OK` and `X_OK` is granted by the
/// owner triple of `p`.
pub open spec fn access_ok(p: Permissions, mode: i32) -> bool {
    &&& (mode & R_OK == 0 || p.owner.read)
    &&& (mode & W_OK == 0 || p.owner.write)
    &&& (mode & X_OK == 0 || p.owner.execute)
}

/// The type tag of a directory entry for an inode of kind `kind`.
pub fn inode_kind_to_dtype(kind: &InodeKind) -> (r: u8)
    ensures
        r == dtype_of(*kind),
{
    match kind {
        InodeKind::File => 8,
        InodeKind::Directory => 4,
        InodeKind::SymbolicLink(_) => 10,
    }
}

/// The stat record of `inode`.
pub fn fill_stat_from_inode(inode: &Inode) -> (r: Stat)
    ensures
        r == stat_of(*inode),
{
    let mode_type: u32 = match inode.kind {
        InodeKind::File => 0o100000,
        InodeKind::Directory => 0o040000,
        InodeKind::SymbolicLink(_) => 0o120000,
    };
    let mode_perms = inode.permissions.mode() as u32;
    let blocks = inode.size / 512 + if inode.size % 512 == 0 {
        0
    } else {
        1
    };
    Stat {
        st_dev: 0,
        st_ino: inode.number,
        st_mode: mode_type | mode_perms,
        st_nlink: 1,
        st_uid: inode.user_id,
        st_gid: inode.group_id,
        st_rdev: 0,
        st_size: inode.size as i64,
        st_blksize: 4096,
        st_blocks: blocks as i64,
        st_atime: inode.atime as i64,
        st_mtime: inode.mtime as i64,
        st_ctime: inode.ctime as i64,
    }
}

/// A path resolved against an absolute directory is absolute.
pub proof fn lemma_abs_absolute(dir: Seq<u8>, p: Seq<u8>)
    requires
        is_absolute_seq(dir),
    ensures
        is_absolute_seq(if is_absolute_seq(p) {
            p
        } else {
            join_seq(dir, p)
        }),
{
    if !is_absolute_seq(p) {
        if dir.last() == crate::path::SLASH {
            assert((dir + p)[0] == dir[0]);
        } else {
            assert((dir + seq![crate::path::SLASH] + p)[0] == dir[0]);
        }
    }
}

/// Some path of `index` has `dir` as its parent.
pub open spec fn has_child(index: Map<Seq<u8>, u64>, dir: Seq<u8>) -> bool {
    exists|q: Seq<u8>| index.contains_key(q) && parent_seq(q) == Some(dir)
}

/// The first path of `ps` that names inode `n`.
pub open spec fn first_path_to(ps: Seq<(PathBuf, u64)>, n: u64) -> Option<Seq<u8>>
    decreases ps.len(),
{
    if ps.len() == 0 {
        None
    } else {
        match first_path_to(ps.drop_last(), n) {
            Some(p) => Some(p),
            None => if ps.last().1 == n {
                Some(ps.last().0@)
            } else {
                None
            },
        }
    }
}

proof fn lemma_first_path_prefix(ps: Seq<(PathBuf, u64)>, i: int, n: u64)
    requires
        0 <= i <= ps.len(),
        first_path_to(ps.subrange(0, i), n) is Some,
    ensures
        first_path_to(ps, n) == first_path_to(ps.subrange(0, i), n),
    decreases ps.len(),
{
    if i == ps.len() {
        assert(ps.subrange(0, i) == ps);
    } else {
        assert(ps.drop_last().subrange(0, i) == ps.subrange(0, i));
        lemma_first_path_prefix(ps.drop_last(), i, n);
    }
}

/// The entries of `ps` directly inside `dir`, in order, as path and inode.
pub open spec fn children_in(ps: Seq<(PathBuf, u64)>, dir: Seq<u8>) -> Seq<(Seq<u8>, u64)>
    decreases ps.len(),
{
    if ps.len() == 0 {
        Seq::empty()
    } else {
        let rest = children_in(ps.drop_last(), dir);
        let e = ps.last();
        if e.0@ != dir && parent_seq(e.0@) == Some(dir) {
            rest.push((e.0@, e.1))
        } else {
            rest
        }
    }
}

/// The name a directory entry for `p` carries.
pub open spec fn entry_name(p: Seq<u8>) -> Seq<u8> {
    match file_name_seq(p) {
        Some(x) => x,
        None => Seq::empty(),
    }
}

/// The entries of `cs` whose name fits a record, in order.
pub open spec fn listable(cs: Seq<(Seq<u8>, u64)>) -> Seq<(Seq<u8>, u64)>
    decreases cs.len(),
{
    if cs.len() == 0 {
        Seq::empty()
    } else {
        let rest = listable(cs.drop_last());
        if entry_name(cs.last().0).len() < DIRENT_NAME_LEN {
            rest.push(cs.last())
        } else {
            rest
        }
    }
}

/// `d` is the record of an entry named `name` for inode `ino`, with offset
/// `off` and type tag `dtype`; the name field is NUL-padded.
pub open spec fn is_record(d: Dirent, name: Seq<u8>, ino: u64, off: int, dtype: u8) -> bool {
    &&& d.d_ino == ino
    &&& d.d_off == off as i64
    &&& d.d_reclen == DIRENT_RECORD_LEN as u16
    &&& d.d_type == dtype
    &&& d.d_name@ == name + Seq::new((DIRENT_NAME_LEN - name.len()) as nat, |i: int| 0u8)
}

/// The record of an entry named `name` for inode `ino`.
fn make_dirent(name: &Vec<u8>, ino: u64, off: i64, dtype: u8) -> (r: Dirent)
    requires
        name@.len() < DIRENT_NAME_LEN,
    ensures
        is_record(r, name@, ino, off as int, dtype),
{
    let mut field: [u8; 256] = [0u8; 256];
    let mut i: usize = 0;
    while i < name.len()
        invariant
            i <= name@.len() < DIRENT_NAME_LEN,
            field@.len() == DIRENT_NAME_LEN,
            forall|j: int| 0 <= j < DIRENT_NAME_LEN ==> #[trigger] field@[j] == if j < i {
                name@[j]
            } else {
                0u8
            },
        decreases name@.len() - i,
    {
        field[i] = name[i];
        i = i + 1;
    }
    assert(field@ == name@ + Seq::new((DIRENT_NAME_LEN - name@.len()) as nat, |i: int| 0u8));
    Dirent {
        d_ino: ino,
        d_off: off,
        d_reclen: DIRENT_RECORD_LEN as u16,
        d_type: dtype,
        d_name: field,
    }
}

/// A file to place in the store: where, and what it holds.
#[derive(Debug)]
pub struct FileDef {
    pub dest_path: PathBuf,
    pub data: Vec<u8>,
}

/// The flags a mounted file is opened with.
pub open spec fn mount_flags() -> i32 {
    O_WRONLY | O_CREAT | O_TRUNC
}

/// `t` is what placing one file, at `path` with content `data`, makes of
/// `s`: open with `mount_flags()` and mode 0o644, then write and close when
/// the open succeeded.
pub open spec fn mount_step(s: Proc, t: Proc, path: Seq<u8>, data: Seq<u8>) -> bool {
    exists|s1: Proc, fd: i32|
        #[trigger] s.open_post(s1, path, mount_flags(), 0o644, fd) && if fd < 0 {
            t == s1
        } else {
            exists|s2: Proc, w: isize, c: i32|
                #[trigger] s1.write_post(s2, fd, data, w) && #[trigger] s2.close_post(t, fd, c)
        }
}

/// `states` runs from `s` to `t`, each state after the first made from the
/// one before by placing the next of `files`.
pub open spec fn mount_chain(states: Seq<Proc>, s: Proc, t: Proc, files: Seq<(Seq<u8>, Seq<u8>)>) -> bool {
    &&& states.len() == files.len() + 1
    &&& states[0] == s
    &&& states.last() == t
    &&& forall|i: int|
        0 <= i < files.len() ==> mount_step(#[trigger] states[i], states[i + 1], files[i].0, files[i].1)
}

/// `t` is what placing `files`, one after the other, makes of `s`.
pub open spec fn mount_all(s: Proc, t: Proc, files: Seq<(Seq<u8>, Seq<u8>)>) -> bool {
    exists|states: Seq<Proc>| mount_chain(states, s, t, files)
}

/// The paths and contents of `files`.
pub open spec fn file_defs_view(files: Seq<FileDef>) -> Seq<(Seq<u8>, Seq<u8>)> {
    files.map_values(|f: FileDef| (f.dest_path@, f.data@))
}

/// The state of the single process.
#[derive(Debug)]
pub struct Proc {
    pub fs: FileSystem,
    fd_table: Vec<Option<u64>>,
    open_files: HashMap<FileDescriptor, OpenFileHandle, OPEN_FILES_CAP>,
    next_fd: FileDescriptor,
    umask_value: u32,
    stdout_line: Vec<u8>,
    stdout_ready: Vec<Vec<u8>>,
}

impl Proc {
    /// The file-system store.
    pub closed spec fn store(&self) -> FileSystem {
        self.fs
    }

    /// The open descriptors and their handles.
    pub closed spec fn handles(&self) -> Map<i32, OpenFileHandle> {
        self.open_files@
    }

    /// The inode recorded in slot `fd` of the descriptor table.
    pub closed spec fn fd_slot(&self, fd: int) -> Option<u64> {
        self.fd_table@[fd]
    }

    /// The creation mask.
    pub closed spec fn umask_spec(&self) -> u32 {
        self.umask_value
    }

    /// Bytes written to the stdout descriptor since its last newline.
    pub closed spec fn stdout_pending(&self) -> Seq<u8> {
        self.stdout_line@
    }

    /// Complete stdout lines not yet handed to the host.
    pub closed spec fn stdout_lines(&self) -> Seq<Seq<u8>> {
        self.stdout_ready@.map_values(|l: Vec<u8>| l@)
    }

    /// The invariants of the process state.
    pub closed spec fn wf(&self) -> bool {
        &&& self.store().wf()
        &&& self.open_files.wf()
        &&& self.fd_table@.len() == FD_TABLE_SIZE
        &&& forall|fd: i32| #[trigger]
            self.open_files@.contains_key(fd) ==> 0 <= fd < FD_TABLE_SIZE
        &&& forall|i: int|
            0 <= i < FD_TABLE_SIZE ==> #[trigger] self.fd_table@[i] == (if self.open_files@.contains_key(
                i as i32,
            ) {
                Some(self.open_files@[i as i32].inode_number)
            } else {
                None
            })
        &&& forall|fd: i32| #[trigger]
            self.open_files@.contains_key(fd) ==> self.fs.payloads().contains_key(
                self.open_files@[fd].inode_number,
            )
        &&& self.umask_value <= 0o777
        &&& !has_newline(self.stdout_line@)
    }

    /// What the invariants say of the parts that contracts speak of.
    pub proof fn lemma_wf_facts(&self)
        requires
            self.wf(),
        ensures
            self.store().wf(),
            forall|fd: i32| #[trigger]
                self.is_open(fd) ==> 0 <= fd < FD_TABLE_SIZE && self.store().payloads().contains_key(
                    self.handles()[fd].inode_number,
                ),
            forall|i: int|
                0 <= i < FD_TABLE_SIZE ==> #[trigger] self.fd_slot(i) == (if self.is_open(i as i32) {
                    Some(self.handles()[i as i32].inode_number)
                } else {
                    None
                }),
            self.umask_spec() <= 0o777,
    {
    }

    /// Whether `fd` is open.
    pub open spec fn is_open(&self, fd: i32) -> bool {
        self.handles().contains_key(fd)
    }

    /// `fd` may be handed out and is not in use.
    pub open spec fn fd_free(&self, fd: int) -> bool {
        FIRST_FD <= fd < FD_TABLE_SIZE && !self.handles().contains_key(fd as i32)
    }

    /// `fd` is the lowest descriptor that may be handed out.
    pub open spec fn lowest_free(&self, fd: int) -> bool {
        self.fd_free(fd) && forall|f: int| FIRST_FD <= f < fd ==> !self.fd_free(f)
    }

    /// Some descriptor may be handed out.
    pub open spec fn has_free_fd(&self) -> bool {
        exists|f: int| self.fd_free(f)
    }

    /// `p` resolved against the working directory.
    pub open spec fn abs(&self, p: Seq<u8>) -> Seq<u8> {
        if is_absolute_seq(p) {
            p
        } else {
            join_seq(self.store().current_directory@, p)
        }
    }

    /// The payload of the inode behind open descriptor `fd`.
    pub open spec fn fd_payload(&self, fd: i32) -> Seq<u8> {
        self.store().payloads()[self.handles()[fd].inode_number]
    }

    /// Everything but the store is as in `s`.
    pub open spec fn same_process(&self, s: Proc) -> bool {
        &&& self.handles() == s.handles()
        &&& self.umask_spec() == s.umask_spec()
        &&& self.stdout_pending() == s.stdout_pending()
        &&& self.stdout_lines() == s.stdout_lines()
    }

    /// The store is as in `s` but for the payload of `n`, now `d`, and the
    /// size of `n`, now the length of `d`.
    pub open spec fn payload_set(&self, s: Proc, n: u64, d: Seq<u8>) -> bool {
        &&& self.store().payloads() == s.store().payloads().insert(n, d)
        &&& self.store().inodes@ == s.store().inodes@.update(n as int, with_size(s.store().inode(n), d.len() as u64))
        &&& self.store().index() == s.store().index()
        &&& self.store().next_inode_number == s.store().next_inode_number
        &&& self.store().current_directory@ == s.store().current_directory@
    }

    /// A process with only the root directory, no open descriptors and the
    /// default creation mask.
    pub fn new() -> (r: Proc)
        ensures
            r.wf(),
            r.handles() == Map::<i32, OpenFileHandle>::empty(),
            r.umask_spec() == DEFAULT_UMASK,
            r.stdout_pending() == Seq::<u8>::empty(),
            r.stdout_lines() == Seq::<Seq<u8>>::empty(),
            r.store().wf(),
            r.store().index() == map![crate::path::root_seq() => 0u64],
            r.store().payloads() == map![0u64 => Seq::<u8>::empty()],
            r.store().inodes@ == seq![fresh_inode(0, perms_of_mode(0), InodeKind::Directory)],
            r.store().next_inode_number == 1,
            r.store().current_directory@ == crate::path::root_seq(),
    {
        let mut fd_table: Vec<Option<u64>> = Vec::new();
        let mut i: usize = 0;
        while i < FD_TABLE_SIZE
            invariant
                i <= FD_TABLE_SIZE,
                fd_table@.len() == i,
                forall|j: int| 0 <= j < i ==> fd_table@[j] is None,
            decreases FD_TABLE_SIZE - i,
        {
            fd_table.push(None);
            i = i + 1;
        }
        let r = Proc {
            fs: FileSystem::new(),
            fd_table,
            open_files: HashMap::new(),
            next_fd: FIRST_FD as i32,
            umask_value: DEFAULT_UMASK,
            stdout_line: Vec::new(),
            stdout_ready: Vec::new(),
        };
        proof {
            assert(r.stdout_lines() == Seq::<Seq<u8>>::empty());
        }
        r
    }

    /// The inode recorded for `fd` in the descriptor table.
    pub fn fd_entry(&self, fd: i32) -> (r: Option<u64>)
        requires
            self.wf(),
        ensures
            r == (if self.is_open(fd) {
                Some(self.handles()[fd].inode_number)
            } else {
                None
            }),
    {
        if fd < 0 || fd as usize >= FD_TABLE_SIZE {
            return None;
        }
        assert(self.fd_table@[fd as int] == self.fd_slot(fd as int));
        self.fd_table[fd as usize]
    }

    /// What `open(path, flags, mode)` leaves and returns, from this state.
    pub open spec fn open_post(&self, t: Proc, path: Seq<u8>, flags: i32, mode: u32, r: i32) -> bool {
        let fs = self.store();
        let p = self.abs(path);
        let present = fs.index().contains_key(p);
        let append = flags & O_APPEND == O_APPEND;
        let n = if present {
            fs.index()[p]
        } else {
            fs.next_inode_number
        };
        let inodes = if present {
            fs.inodes@
        } else {
            fs.inodes@.push(fresh_inode(n, perms_of_mode((mode & 0o777) as u16), InodeKind::File))
        };
        let d = if flags & O_TRUNC == O_TRUNC || !fs.payloads().contains_key(n) {
            Seq::<u8>::empty()
        } else {
            fs.payloads()[n]
        };
        if !(present || (flags & O_CREAT == O_CREAT && fs.next_inode_number < u64::MAX))
            || !self.has_free_fd() {
            r == -1 && t == *self
        } else {
            &&& self.lowest_free(r as int)
            &&& t.store().index() == (if present {
                fs.index()
            } else {
                fs.index().insert(p, n)
            })
            &&& t.store().next_inode_number == (if present {
                fs.next_inode_number
            } else {
                (fs.next_inode_number + 1) as u64
            })
            &&& t.store().inodes@ == inodes.update(n as int, with_size(inodes[n as int], d.len() as u64))
            &&& t.store().payloads() == fs.payloads().insert(n, d)
            &&& t.store().current_directory@ == fs.current_directory@
            &&& t.handles() == self.handles().insert(
                r,
                OpenFileHandle {
                    inode_number: n,
                    position: if append {
                        d.len() as u64
                    } else {
                        0
                    },
                    append_mode: append,
                },
            )
            &&& t.umask_spec() == self.umask_spec()
            &&& t.stdout_pending() == self.stdout_pending()
            &&& t.stdout_lines() == self.stdout_lines()
        }
    }

    /// Opens `path`, resolved against the working directory: the inode it
    /// names, or with `O_CREAT` a new file with the permissions of
    /// `mode & 0o777`. `O_TRUNC` empties the payload; `O_APPEND` starts the
    /// position at the payload's end. Returns the lowest free descriptor, or -1
    /// when the path is missing without `O_CREAT` or no descriptor is free.
    pub fn open(&mut self, path: &PathBuf, flags: i32, mode: u32) -> (r: i32)
        requires
            old(self).wf(),
        ensures
            final(self).wf(),
            old(self).open_post(*final(self), path@, flags, mode, r),
    {
        let abs = self.get_absolute_path(path);
        let create = flags & O_CREAT == O_CREAT;
        let truncate = flags & O_TRUNC == O_TRUNC;
        let append = flags & O_APPEND == O_APPEND;
        let found = self.fs.lookup_inode_by_path(&abs);
        if found.is_none() && !(create && self.fs.next_inode_number < u64::MAX) {
            return -1;
        }
        let fd = match self.allocate_fd() {
            Some(fd) => fd,
            None => {
                return -1;
            },
        };
        let ghost s = *self;
        assert(s.fd_free(fd as int));
        let n = match found {
            Some(n) => n,
            None => self.fs.create_file(&abs, mode),
        };
        let len = if truncate {
            0
        } else {
            match self.fs.files.get(&n) {
                Some(d) => d.len(),
                None => 0,
            }
        };
        let ghost mid = self.fs;
        self.fs.resize_payload(n, len);
        proof {
            let d = if truncate || !mid.payloads().contains_key(n) {
                Seq::<u8>::empty()
            } else {
                mid.payloads()[n]
            };
            assert(resized(mid.payload_or_empty(n), len as nat) == d);
            if found.is_none() {
                assert(!s.fs.payloads().contains_key(n));
                assert(self.fs.payloads() == s.fs.payloads().insert(n, d));
            } else {
                assert(mid == s.fs);
            }
            assert forall|f: i32| #[trigger] s.open_files@.contains_key(f) implies self.fs.payloads().contains_key(
                s.open_files@[f].inode_number,
            ) by {
                assert(mid.payloads().contains_key(s.open_files@[f].inode_number));
            }
        }
        let pos: u64 = if append {
            len as u64
        } else {
            0
        };
        self.install(fd, OpenFileHandle { inode_number: n, position: pos, append_mode: append });
        proof {
            assert(s.has_free_fd());
            assert(s.store().index().contains_key(s.abs(path@)) || (flags & O_CREAT == O_CREAT
                && s.store().next_inode_number < u64::MAX));
        }
        fd
    }

    /// `open(path, O_WRONLY | O_CREAT | O_TRUNC, mode)`.
    pub fn creat(&mut self, path: &PathBuf, mode: u32) -> (r: i32)
        requires
            old(self).wf(),
        ensures
            final(self).wf(),
            old(self).open_post(*final(self), path@, O_WRONLY | O_CREAT | O_TRUNC, mode, r),
    {
        self.open(path, O_WRONLY | O_CREAT | O_TRUNC, mode)
    }

    /// What `close(fd)` leaves and returns, from this state.
    pub open spec fn close_post(&self, t: Proc, fd: i32, r: i32) -> bool {
        if self.is_open(fd) {
            &&& r == 0
            &&& t.handles() == self.handles().remove(fd)
            &&& t.store() == self.store()
            &&& t.same_process_but_handles(*self)
        } else {
            r == -1 && t == *self
        }
    }

    /// Closes `fd`; -1 when it is out of range or not open.
    pub fn close(&mut self, fd: i32) -> (r: i32)
        requires
            old(self).wf(),
        ensures
            final(self).wf(),
            old(self).close_post(*final(self), fd, r),
    {
        if fd < 0 || fd as usize >= FD_TABLE_SIZE {
            return -1;
        }
        if self.fd_table[fd as usize].is_none() {
            return -1;
        }
        self.release(fd);
        0
    }

    /// Umask and stdout state are as in `s`.
    pub open spec fn same_process_but_handles(&self, s: Proc) -> bool {
        &&& self.umask_spec() == s.umask_spec()
        &&& self.stdout_pending() == s.stdout_pending()
        &&& self.stdout_lines() == s.stdout_lines()
    }

    /// What `read(fd, buf)` leaves and returns, from this state; `nb` is `buf`
    /// afterwards.
    pub open spec fn read_post(&self, t: Proc, fd: i32, buf: Seq<u8>, nb: Seq<u8>, r: isize) -> bool {
        if !self.is_open(fd) {
            r == -1 && t == *self && nb == buf
        } else {
            let h = self.handles()[fd];
            let d = self.fd_payload(fd);
            if h.position >= d.len() {
                r == 0 && t == *self && nb == buf
            } else {
                let n = if buf.len() < d.len() - h.position {
                    buf.len() as int
                } else {
                    d.len() - h.position
                };
                &&& r == n
                &&& nb == d.subrange(h.position as int, h.position + n) + buf.subrange(n, buf.len() as int)
                &&& t.handles() == self.handles().insert(
                    fd,
                    OpenFileHandle { position: (h.position + n) as u64, ..h },
                )
                &&& t.store() == self.store()
                &&& t.same_process_but_handles(*self)
            }
        }
    }

    /// Reads from `fd` at its position into the front of `buf`: as many bytes
    /// as `buf` holds or the payload has left, advancing the position. Returns
    /// the count, 0 at or past the end, -1 when `fd` is not open.
    pub fn read(&mut self, fd: i32, buf: &mut [u8]) -> (r: isize)
        requires
            old(self).wf(),
            old(buf)@.len() <= isize::MAX,
        ensures
            final(self).wf(),
            old(self).read_post(*final(self), fd, old(buf)@, final(buf)@, r),
    {
        let h = match self.open_files.get(&fd) {
            Some(h) => *h,
            None => {
                return -1;
            },
        };
        let n = match self.fs.files.get(&h.inode_number) {
            Some(d) => {
                if h.position >= d.len() as u64 {
                    return 0;
                }
                fill_from(buf, d.as_slice(), h.position as usize)
            },
            None => {
                return -1;
            },
        };
        let new_pos = h.position + n as u64;
        self.update_handle(fd, OpenFileHandle { position: new_pos, ..h });
        n as isize
    }

    /// What `write(fd, buf)` leaves and returns, from this state.
    pub open spec fn write_post(&self, t: Proc, fd: i32, buf: Seq<u8>, r: isize) -> bool {
        if fd == STDOUT_FD {
            &&& r == buf.len()
            &&& t.store() == self.store()
            &&& t.handles() == self.handles()
            &&& t.umask_spec() == self.umask_spec()
            &&& stdout_extended(
                self.stdout_lines(),
                self.stdout_pending(),
                t.stdout_lines(),
                t.stdout_pending(),
                buf,
            )
        } else if !self.is_open(fd) {
            r == -1 && t == *self
        } else {
            let h = self.handles()[fd];
            let d = self.fd_payload(fd);
            let pos: int = if h.append_mode {
                d.len() as int
            } else {
                h.position as int
            };
            if pos + buf.len() > usize::MAX {
                r == -1 && t == *self
            } else {
                &&& r == buf.len()
                &&& t.payload_set(*self, h.inode_number, written_at(d, pos as nat, buf))
                &&& t.handles() == self.handles().insert(
                    fd,
                    OpenFileHandle { position: (pos + buf.len()) as u64, ..h },
                )
                &&& t.same_process_but_handles(*self)
            }
        }
    }

    /// Writes `buf` to `fd` at its position (at the payload's end in append
    /// mode), growing the payload with zeroes as needed, and advances the
    /// position past it. Descriptor 1 queues complete lines for the host
    /// instead. Returns the count, or -1 when `fd` is not open.
    pub fn write(&mut self, fd: i32, buf: &[u8]) -> (r: isize)
        requires
            old(self).wf(),
            buf@.len() <= isize::MAX,
        ensures
            final(self).wf(),
            old(self).write_post(*final(self), fd, buf@, r),
    {
        if fd == STDOUT_FD {
            push_stdout(&mut self.stdout_line, &mut self.stdout_ready, buf);
            return buf.len() as isize;
        }
        let h = match self.open_files.get(&fd) {
            Some(h) => *h,
            None => {
                return -1;
            },
        };
        let len = match self.fs.files.get(&h.inode_number) {
            Some(d) => d.len(),
            None => {
                return -1;
            },
        };
        let pos: u64 = if h.append_mode {
            len as u64
        } else {
            h.position
        };
        if pos > usize::MAX as u64 || buf.len() > usize::MAX - pos as usize {
            return -1;
        }
        let ghost s = *self;
        self.fs.write_payload(h.inode_number, pos as usize, buf);
        proof {
            assert forall|f: i32| #[trigger] s.open_files@.contains_key(f) implies self.fs.payloads().contains_key(
                s.open_files@[f].inode_number,
            ) by {}
        }
        self.update_handle(fd, OpenFileHandle { position: pos + buf.len() as u64, ..h });
        buf.len() as isize
    }

    /// Hands out the complete stdout lines queued so far, oldest first.
    pub fn take_stdout_lines(&mut self) -> (r: Vec<Vec<u8>>)
        requires
            old(self).wf(),
        ensures
            final(self).wf(),
            line_views(r@) == old(self).stdout_lines(),
            final(self).stdout_lines() == Seq::<Seq<u8>>::empty(),
            final(self).stdout_pending() == old(self).stdout_pending(),
            final(self).store() == old(self).store(),
            final(self).handles() == old(self).handles(),
            final(self).umask_spec() == old(self).umask_spec(),
    {
        let mut out: Vec<Vec<u8>> = Vec::new();
        std::mem::swap(&mut out, &mut self.stdout_ready);
        proof {
            assert(self.stdout_lines() == Seq::<Seq<u8>>::empty());
        }
        out
    }

    /// What `lseek(fd, offset, whence)` leaves and returns, from this state.
    pub open spec fn lseek_post(&self, t: Proc, fd: i32, offset: i64, whence: i32, r: i64) -> bool {
        if !self.is_open(fd) {
            r == -1 && t == *self
        } else {
            let h = self.handles()[fd];
            let np: int = if whence == SEEK_SET {
                offset as int
            } else if whence == SEEK_CUR {
                h.position + offset
            } else {
                self.fd_payload(fd).len() + offset
            };
            if !(whence == SEEK_SET || whence == SEEK_CUR || whence == SEEK_END) || np < 0 || np
                > i64::MAX {
                r == -1 && t == *self
            } else {
                &&& r == np
                &&& t.handles() == self.handles().insert(fd, OpenFileHandle { position: np as u64, ..h })
                &&& t.store() == self.store()
                &&& t.same_process_but_handles(*self)
            }
        }
    }

    /// Moves the position of `fd` to `offset` from the start (`SEEK_SET`), the
    /// current position (`SEEK_CUR`) or the payload's end (`SEEK_END`); past the
    /// end is allowed. Returns the new position, or -1 when `fd` is not open,
    /// `whence` is unknown or the result is negative.
    pub fn lseek(&mut self, fd: i32, offset: i64, whence: i32) -> (r: i64)
        requires
            old(self).wf(),
        ensures
            final(self).wf(),
            old(self).lseek_post(*final(self), fd, offset, whence, r),
    {
        let h = match self.open_files.get(&fd) {
            Some(h) => *h,
            None => {
                return -1;
            },
        };
        let size = match self.fs.files.get(&h.inode_number) {
            Some(d) => d.len(),
            None => {
                return -1;
            },
        };
        let base: i128 = if whence == SEEK_SET {
            0
        } else if whence == SEEK_CUR {
            h.position as i128
        } else if whence == SEEK_END {
            size as i128
        } else {
            return -1;
        };
        let np: i128 = base + offset as i128;
        if np < 0 || np > i64::MAX as i128 {
            return -1;
        }
        self.update_handle(fd, OpenFileHandle { position: np as u64, ..h });
        np as i64
    }

    /// What `dup(oldfd)` leaves and returns, from this state.
    pub open spec fn dup_post(&self, t: Proc, oldfd: i32, r: i32) -> bool {
        if !self.is_open(oldfd) || !self.has_free_fd() {
            r == -1 && t == *self
        } else {
            &&& self.lowest_free(r as int)
            &&& t.handles() == self.handles().insert(r, self.handles()[oldfd])
            &&& t.store() == self.store()
            &&& t.same_process_but_handles(*self)
        }
    }

    /// Opens the lowest free descriptor with a copy of the handle of `oldfd`:
    /// same inode, position and append mode, moving independently from then
    /// on. Returns it, or -1 when `oldfd` is not open or none is free.
    pub fn dup(&mut self, oldfd: i32) -> (r: i32)
        requires
            old(self).wf(),
        ensures
            final(self).wf(),
            old(self).dup_post(*final(self), oldfd, r),
    {
        let h = match self.open_files.get(&oldfd) {
            Some(h) => *h,
            None => {
                return -1;
            },
        };
        let fd = match self.allocate_fd() {
            Some(fd) => fd,
            None => {
                return -1;
            },
        };
        proof {
            assert(self.fd_free(fd as int));
        }
        self.install(fd, h);
        fd
    }

    /// What `dup2(oldfd, newfd)` leaves and returns, from this state.
    pub open spec fn dup2_post(&self, t: Proc, oldfd: i32, newfd: i32, r: i32) -> bool {
        if !(0 <= newfd < FD_TABLE_SIZE) || !self.is_open(oldfd) {
            r == -1 && t == *self
        } else if oldfd == newfd {
            r == newfd && t == *self
        } else {
            &&& r == newfd
            &&& t.handles() == self.handles().insert(newfd, self.handles()[oldfd])
            &&& t.store() == self.store()
            &&& t.same_process_but_handles(*self)
        }
    }

    /// Makes `newfd` a copy of `oldfd`, closing `newfd` first if it was open;
    /// nothing happens when they are equal. Returns `newfd`, or -1 when either
    /// is out of range or `oldfd` is not open.
    pub fn dup2(&mut self, oldfd: i32, newfd: i32) -> (r: i32)
        requires
            old(self).wf(),
        ensures
            final(self).wf(),
            old(self).dup2_post(*final(self), oldfd, newfd, r),
    {
        if newfd < 0 || newfd as usize >= FD_TABLE_SIZE {
            return -1;
        }
        let h = match self.open_files.get(&oldfd) {
            Some(h) => *h,
            None => {
                return -1;
            },
        };
        if oldfd == newfd {
            return newfd;
        }
        let ghost s = *self;
        if self.fd_table[newfd as usize].is_some() {
            self.release(newfd);
        }
        self.install(newfd, h);
        proof {
            assert(self.handles() == s.handles().insert(newfd, s.handles()[oldfd]));
        }
        newfd
    }

    /// What `pread64(fd, buf, offset)` leaves and returns, from this state; `nb`
    /// is `buf` afterwards.
    pub open spec fn pread_post(&self, t: Proc, fd: i32, buf: Seq<u8>, offset: i64, nb: Seq<u8>, r: isize) -> bool {
        &&& t == *self
        &&& if !self.is_open(fd) || offset < 0 {
            r == -1 && nb == buf
        } else {
            let d = self.fd_payload(fd);
            if offset >= d.len() {
                r == 0 && nb == buf
            } else {
                let n = if buf.len() < d.len() - offset {
                    buf.len() as int
                } else {
                    d.len() - offset
                };
                &&& r == n
                &&& nb == d.subrange(offset as int, offset + n) + buf.subrange(n, buf.len() as int)
            }
        }
    }

    /// Reads like `read`, from `offset` instead of the position, which stays.
    pub fn pread64(&self, fd: i32, buf: &mut [u8], offset: i64) -> (r: isize)
        requires
            self.wf(),
            old(buf)@.len() <= isize::MAX,
        ensures
            self.pread_post(*self, fd, old(buf)@, offset, final(buf)@, r),
    {
        let h = match self.open_files.get(&fd) {
            Some(h) => *h,
            None => {
                return -1;
            },
        };
        if offset < 0 {
            return -1;
        }
        match self.fs.files.get(&h.inode_number) {
            Some(d) => {
                if offset as u64 >= d.len() as u64 {
                    return 0;
                }
                let n = fill_from(buf, d.as_slice(), offset as usize);
                n as isize
            },
            None => -1,
        }
    }

    /// What `pwrite64(fd, buf, offset)` leaves and returns, from this state.
    pub open spec fn pwrite_post(&self, t: Proc, fd: i32, buf: Seq<u8>, offset: i64, r: isize) -> bool {
        if !self.is_open(fd) || offset < 0 || offset + buf.len() > usize::MAX {
            r == -1 && t == *self
        } else {
            let h = self.handles()[fd];
            &&& r == buf.len()
            &&& t.payload_set(*self, h.inode_number, written_at(self.fd_payload(fd), offset as nat, buf))
            &&& t.handles() == self.handles()
            &&& t.same_process_but_handles(*self)
        }
    }

    /// Writes like `write`, at `offset` instead of the position, which stays.
    pub fn pwrite64(&mut self, fd: i32, buf: &[u8], offset: i64) -> (r: isize)
        requires
            old(self).wf(),
            buf@.len() <= isize::MAX,
        ensures
            final(self).wf(),
            old(self).pwrite_post(*final(self), fd, buf@, offset, r),
    {
        let h = match self.open_files.get(&fd) {
            Some(h) => *h,
            None => {
                return -1;
            },
        };
        if offset < 0 || offset as u64 > usize::MAX as u64 || buf.len() > usize::MAX - offset as usize {
            return -1;
        }
        let ghost s = *self;
        self.fs.write_payload(h.inode_number, offset as usize, buf);
        proof {
            assert forall|f: i32| #[trigger] s.open_files@.contains_key(f) implies self.fs.payloads().contains_key(
                s.open_files@[f].inode_number,
            ) by {}
        }
        buf.len() as isize
    }

    /// What `splice(fd_in, off_in, fd_out, off_out, len)` leaves and returns,
    /// from this state; `new_in` and `new_out` are the offsets afterwards.
    pub open spec fn splice_post(
        &self,
        t: Proc,
        fd_in: i32,
        off_in: Option<i64>,
        new_in: Option<i64>,
        fd_out: i32,
        off_out: Option<i64>,
        new_out: Option<i64>,
        len: usize,
        r: isize,
    ) -> bool {
        let unchanged = t == *self && new_in == off_in && new_out == off_out;
        if !self.is_open(fd_in) || !self.is_open(fd_out) {
            r == -1 && unchanged
        } else {
            let hi = self.handles()[fd_in];
            let ho = self.handles()[fd_out];
            let din = self.fd_payload(fd_in);
            let dout = self.fd_payload(fd_out);
            let start: int = match off_in {
                Some(o) => o as int,
                None => hi.position as int,
            };
            if start < 0 {
                r == -1 && unchanged
            } else if start >= din.len() {
                r == 0 && unchanged
            } else {
                let n: int = if len < din.len() - start {
                    len as int
                } else {
                    din.len() - start
                };
                let wpos: int = match off_out {
                    Some(o) => o as int,
                    None => if ho.append_mode {
                        dout.len() as int
                    } else {
                        ho.position as int
                    },
                };
                if n > isize::MAX || wpos < 0 || wpos + n > usize::MAX || (off_in is Some && start + n
                    > i64::MAX) || (off_out is Some && wpos + n > i64::MAX) {
                    r == -1 && unchanged
                } else {
                    let h1 = if off_in is None {
                        self.handles().insert(fd_in, OpenFileHandle { position: (start + n) as u64, ..hi })
                    } else {
                        self.handles()
                    };
                    let h2 = if off_out is None {
                        h1.insert(fd_out, OpenFileHandle { position: (wpos + n) as u64, ..ho })
                    } else {
                        h1
                    };
                    &&& r == n
                    &&& t.payload_set(
                        *self,
                        ho.inode_number,
                        written_at(dout, wpos as nat, din.subrange(start, start + n)),
                    )
                    &&& t.handles() == h2
                    &&& new_in == (match off_in {
                        Some(o) => Some((o + n) as i64),
                        None => None,
                    })
                    &&& new_out == (match off_out {
                        Some(o) => Some((o + n) as i64),
                        None => None,
                    })
                    &&& t.same_process_but_handles(*self)
                }
            }
        }
    }

    /// Copies up to `len` bytes from `fd_in` to `fd_out`. Each side reads or
    /// writes at its offset when one is given, and moves that offset on;
    /// otherwise at its position (the output's end in append mode), and moves
    /// the position on. Returns the count, 0 when the input is at or past its
    /// end, -1 when a descriptor is not open or an offset is negative.
    #[verifier::rlimit(60)]
    pub fn splice(
        &mut self,
        fd_in: i32,
        off_in: &mut Option<i64>,
        fd_out: i32,
        off_out: &mut Option<i64>,
        len: usize,
        flags: u32,
    ) -> (r: isize)
        requires
            old(self).wf(),
        ensures
            final(self).wf(),
            old(self).splice_post(
                *final(self),
                fd_in,
                *old(off_in),
                *final(off_in),
                fd_out,
                *old(off_out),
                *final(off_out),
                len,
                r,
            ),
    {
        let hi = match self.open_files.get(&fd_in) {
            Some(h) => *h,
            None => {
                return -1;
            },
        };
        let ho = match self.open_files.get(&fd_out) {
            Some(h) => *h,
            None => {
                return -1;
            },
        };
        let start: u64 = match *off_in {
            Some(o) => {
                if o < 0 {
                    return -1;
                }
                o as u64
            },
            None => hi.position,
        };
        let (n, chunk) = match self.fs.files.get(&hi.inode_number) {
            Some(d) => {
                if start >= d.len() as u64 {
                    return 0;
                }
                let s = start as usize;
                let avail = d.len() - s;
                let n = if len < avail {
                    len
                } else {
                    avail
                };
                (n, slice_to_vec(slice_subrange(d.as_slice(), s, s + n)))
            },
            None => {
                return -1;
            },
        };
        let out_len = match self.fs.files.get(&ho.inode_number) {
            Some(d) => d.len(),
            None => {
                return -1;
            },
        };
        let wpos: u64 = match *off_out {
            Some(o) => {
                if o < 0 {
                    return -1;
                }
                o as u64
            },
            None => if ho.append_mode {
                out_len as u64
            } else {
                ho.position
            },
        };
        if n > isize::MAX as usize || wpos > usize::MAX as u64 || n > usize::MAX - wpos as usize {
            return -1;
        }
        if off_in.is_some() && start + n as u64 > i64::MAX as u64 {
            return -1;
        }
        if off_out.is_some() && wpos + n as u64 > i64::MAX as u64 {
            return -1;
        }
        let ghost s = *self;
        self.fs.write_payload(ho.inode_number, wpos as usize, chunk.as_slice());
        proof {
            assert forall|f: i32| #[trigger] s.open_files@.contains_key(f) implies self.fs.payloads().contains_key(
                s.open_files@[f].inode_number,
            ) by {}
        }
        match *off_in {
            Some(o) => {
                *off_in = Some(o + n as i64);
            },
            None => {
                self.update_handle(fd_in, OpenFileHandle { position: start + n as u64, ..hi });
            },
        }
        match *off_out {
            Some(o) => {
                *off_out = Some(o + n as i64);
            },
            None => {
                self.update_handle(fd_out, OpenFileHandle { position: wpos + n as u64, ..ho });
            },
        }
        n as isize
    }

    /// `splice` from `in_fd` to `out_fd` at the output's position; `offset`,
    /// when given, is the input offset.
    pub fn sendfile(&mut self, out_fd: i32, in_fd: i32, offset: &mut Option<i64>, count: usize) -> (r: isize)
        requires
            old(self).wf(),
        ensures
            final(self).wf(),
            old(self).splice_post(
                *final(self),
                in_fd,
                *old(offset),
                *final(offset),
                out_fd,
                None,
                None,
                count,
                r,
            ),
    {
        let mut no_offset: Option<i64> = None;
        self.splice(in_fd, offset, out_fd, &mut no_offset, count, 0)
    }

    /// The inode that `path`, resolved against the working directory, names.
    pub open spec fn lookup(&self, path: Seq<u8>) -> Option<u64> {
        if self.store().index().contains_key(self.abs(path)) {
            Some(self.store().index()[self.abs(path)])
        } else {
            None
        }
    }

    /// The store is as in `s` but for inode `n`, now `i`; the rest of the
    /// process is as in `s`.
    pub open spec fn inode_set(&self, s: Proc, n: u64, i: Inode) -> bool {
        &&& self.store().inodes@ == s.store().inodes@.update(n as int, i)
        &&& self.store().payloads() == s.store().payloads()
        &&& self.store().index() == s.store().index()
        &&& self.store().next_inode_number == s.store().next_inode_number
        &&& self.store().current_directory@ == s.store().current_directory@
        &&& self.same_process(s)
    }

    /// The store is as in `s` but for the path index, now `index`; the rest of
    /// the process is as in `s`.
    pub open spec fn index_set(&self, s: Proc, index: Map<Seq<u8>, u64>) -> bool {
        &&& self.store().index() == index
        &&& self.store().inodes@ == s.store().inodes@
        &&& self.store().payloads() == s.store().payloads()
        &&& self.store().next_inode_number == s.store().next_inode_number
        &&& self.store().current_directory@ == s.store().current_directory@
        &&& self.same_process(s)
    }

    /// The store gained inode `i`, numbered `n`, named `p` in the path index,
    /// with an empty payload unless it is a symbolic link; the rest of the
    /// process is as in `s`.
    pub open spec fn inode_added(&self, s: Proc, p: Seq<u8>, n: u64, i: Inode) -> bool {
        &&& n == s.store().next_inode_number
        &&& self.store().next_inode_number == n + 1
        &&& self.store().inodes@ == s.store().inodes@.push(i)
        &&& self.store().index() == s.store().index().insert(p, n)
        &&& self.store().payloads() == (if i.kind is SymbolicLink {
            s.store().payloads()
        } else {
            s.store().payloads().insert(n, Seq::empty())
        })
        &&& self.store().current_directory@ == s.store().current_directory@
        &&& self.same_process(s)
    }

    /// Re-establishes the process invariants after a change to the store that
    /// kept every payload.
    proof fn lemma_store_changed(s: Proc, t: Proc)
        requires
            s.wf(),
            t.fs.wf(),
            t.open_files == s.open_files,
            t.fd_table == s.fd_table,
            t.umask_value == s.umask_value,
            t.stdout_line == s.stdout_line,
            s.fs.payloads().dom().subset_of(t.fs.payloads().dom()),
        ensures
            t.wf(),
    {
        assert forall|fd: i32| #[trigger] t.open_files@.contains_key(fd) implies t.fs.payloads().contains_key(
            t.open_files@[fd].inode_number,
        ) by {
            assert(s.fs.payloads().contains_key(s.open_files@[fd].inode_number));
        }
    }

    /// The inode behind `n`, which the store holds.
    fn get_inode(&self, n: u64) -> (r: Option<&Inode>)
        requires
            self.wf(),
        ensures
            match r {
                Some(i) => n < self.store().next_inode_number && *i == self.store().inode(n),
                None => n >= self.store().next_inode_number,
            },
    {
        if n as u128 >= self.fs.inodes.len() as u128 {
            return None;
        }
        Some(&self.fs.inodes[n as usize])
    }

    /// What `stat(path, statbuf)` returns and leaves in the buffer (`sb` before,
    /// `nsb` after), from this state.
    pub open spec fn stat_post(&self, path: Seq<u8>, sb: Stat, nsb: Stat, r: i32) -> bool {
        match self.lookup(path) {
            Some(n) => r == 0 && nsb == stat_of(self.store().inode(n)),
            None => r == -1 && nsb == sb,
        }
    }

    /// Fills `statbuf` from the inode that `path` names; -1 when it names none.
    pub fn stat(&self, path: &PathBuf, statbuf: &mut Stat) -> (r: i32)
        requires
            self.wf(),
        ensures
            self.stat_post(path@, *old(statbuf), *final(statbuf), r),
    {
        let abs = self.get_absolute_path(path);
        let n = match self.fs.lookup_inode_by_path(&abs) {
            Some(n) => n,
            None => {
                return -1;
            },
        };
        match self.get_inode(n) {
            Some(inode) => {
                *statbuf = fill_stat_from_inode(inode);
                0
            },
            None => -1,
        }
    }

    /// Fills `statbuf` from the inode behind `fd`; -1 when `fd` is not open.
    pub fn fstat(&self, fd: i32, statbuf: &mut Stat) -> (r: i32)
        requires
            self.wf(),
        ensures
            if self.is_open(fd) {
                r == 0 && *final(statbuf) == stat_of(self.store().inode(self.handles()[fd].inode_number))
            } else {
                r == -1 && *final(statbuf) == *old(statbuf)
            },
    {
        let n = match self.fd_entry(fd) {
            Some(n) => n,
            None => {
                return -1;
            },
        };
        match self.get_inode(n) {
            Some(inode) => {
                *statbuf = fill_stat_from_inode(inode);
                0
            },
            None => -1,
        }
    }

    /// Sets the permissions of inode `n` to those of `mode & 0o777`.
    fn set_mode_of(&mut self, n: u64, mode: u32)
        requires
            old(self).wf(),
            n < old(self).store().next_inode_number,
        ensures
            final(self).wf(),
            final(self).inode_set(
                *old(self),
                n,
                with_permissions(old(self).store().inode(n), perms_of_mode((mode & 0o777) as u16)),
            ),
    {
        let ghost s = *self;
        self.fs.set_permissions(n, Permissions::from((mode & 0o777) as u16));
        proof {
            assert(self.fs.payloads() == s.fs.payloads());
            Proc::lemma_store_changed(s, *self);
        }
    }

    /// Sets the owner of inode `n`.
    fn set_owner_of(&mut self, n: u64, owner: u32, group: u32)
        requires
            old(self).wf(),
            n < old(self).store().next_inode_number,
        ensures
            final(self).wf(),
            final(self).inode_set(*old(self), n, with_owner(old(self).store().inode(n), owner, group)),
    {
        let ghost s = *self;
        self.fs.set_owner(n, owner, group);
        proof {
            assert(self.fs.payloads() == s.fs.payloads());
            Proc::lemma_store_changed(s, *self);
        }
    }

    /// Gives the inode that `path` names the permissions of `mode & 0o777`;
    /// -1 when it names none.
    pub fn chmod(&mut self, path: &PathBuf, mode: u32) -> (r: i32)
        requires
            old(self).wf(),
        ensures
            final(self).wf(),
            match old(self).lookup(path@) {
                Some(n) => r == 0 && final(self).inode_set(
                    *old(self),
                    n,
                    with_permissions(old(self).store().inode(n), perms_of_mode((mode & 0o777) as u16)),
                ),
                None => r == -1 && *final(self) == *old(self),
            },
    {
        let abs = self.get_absolute_path(path);
        match self.fs.lookup_inode_by_path(&abs) {
            Some(n) => {
                self.set_mode_of(n, mode);
                0
            },
            None => -1,
        }
    }

    /// `chmod` on the inode behind `fd`; -1 when `fd` is not open.
    pub fn fchmod(&mut self, fd: i32, mode: u32) -> (r: i32)
        requires
            old(self).wf(),
        ensures
            final(self).wf(),
            if old(self).is_open(fd) {
                let n = old(self).handles()[fd].inode_number;
                r == 0 && final(self).inode_set(
                    *old(self),
                    n,
                    with_permissions(old(self).store().inode(n), perms_of_mode((mode & 0o777) as u16)),
                )
            } else {
                r == -1 && *final(self) == *old(self)
            },
    {
        match self.fd_entry(fd) {
            Some(n) => {
                self.set_mode_of(n, mode);
                0
            },
            None => -1,
        }
    }

    /// Gives the inode that `path` names the owner `owner` and group `group`;
    /// -1 when it names none.
    pub fn chown(&mut self, path: &PathBuf, owner: u32, group: u32) -> (r: i32)
        requires
            old(self).wf(),
        ensures
            final(self).wf(),
            match old(self).lookup(path@) {
                Some(n) => r == 0 && final(self).inode_set(
                    *old(self),
                    n,
                    with_owner(old(self).store().inode(n), owner, group),
                ),
                None => r == -1 && *final(self) == *old(self),
            },
    {
        let abs = self.get_absolute_path(path);
        match self.fs.lookup_inode_by_path(&abs) {
            Some(n) => {
                self.set_owner_of(n, owner, group);
                0
            },
            None => -1,
        }
    }

    /// `chown` on the inode behind `fd`; -1 when `fd` is not open.
    pub fn fchown(&mut self, fd: i32, owner: u32, group: u32) -> (r: i32)
        requires
            old(self).wf(),
        ensures
            final(self).wf(),
            if old(self).is_open(fd) {
                let n = old(self).handles()[fd].inode_number;
                r == 0 && final(self).inode_set(
                    *old(self),
                    n,
                    with_owner(old(self).store().inode(n), owner, group),
                )
            } else {
                r == -1 && *final(self) == *old(self)
            },
    {
        match self.fd_entry(fd) {
            Some(n) => {
                self.set_owner_of(n, owner, group);
                0
            },
            None => -1,
        }
    }

    /// Whether the owner triple of `inode` grants every bit of `mode`.
    fn check_access(&self, inode: &Inode, mode: i32) -> (r: bool)
        ensures
            r == access_ok(inode.permissions, mode),
    {
        let p = &inode.permissions.owner;
        if (mode & R_OK) != 0 && !p.read {
            return false;
        }
        if (mode & W_OK) != 0 && !p.write {
            return false;
        }
        if (mode & X_OK) != 0 && !p.execute {
            return false;
        }
        true
    }

    /// 0 when `path` names an inode whose owner triple grants every bit of
    /// `mode`, else -1.
    pub fn access(&self, path: &PathBuf, mode: i32) -> (r: i32)
        requires
            self.wf(),
        ensures
            r == (match self.lookup(path@) {
                Some(n) => if access_ok(self.store().inode(n).permissions, mode) {
                    0i32
                } else {
                    -1i32
                },
                None => -1i32,
            }),
    {
        let abs = self.get_absolute_path(path);
        let n = match self.fs.lookup_inode_by_path(&abs) {
            Some(n) => n,
            None => {
                return -1;
            },
        };
        match self.get_inode(n) {
            Some(inode) => if self.check_access(inode, mode) {
                0
            } else {
                -1
            },
            None => -1,
        }
    }

    /// What `umask(mask)` leaves and returns, from this state.
    pub open spec fn umask_post(&self, t: Proc, mask: u32, r: u32) -> bool {
        &&& r == self.umask_spec()
        &&& t.umask_spec() == mask & 0o777
        &&& t.store() == self.store()
        &&& t.handles() == self.handles()
        &&& t.stdout_pending() == self.stdout_pending()
        &&& t.stdout_lines() == self.stdout_lines()
    }

    /// Installs `mask & 0o777` as the creation mask and returns the old one.
    pub fn umask(&mut self, mask: u32) -> (r: u32)
        requires
            old(self).wf(),
        ensures
            final(self).wf(),
            old(self).umask_post(*final(self), mask, r),
    {
        let old_mask = self.umask_value;
        self.umask_value = mask & 0o777;
        assert(mask & 0o777 <= 0o777) by (bit_vector);
        old_mask
    }

    /// What `rename(oldpath, newpath)` leaves and returns, from this state.
    pub open spec fn rename_post(&self, t: Proc, oldpath: Seq<u8>, newpath: Seq<u8>, r: i32) -> bool {
        match self.lookup(oldpath) {
            Some(n) => r == 0 && t.index_set(
                *self,
                self.store().index().remove(self.abs(oldpath)).insert(
                    self.abs(newpath),
                    n,
                ),
            ),
            None => r == -1 && t == *self,
        }
    }

    /// Moves the name `oldpath` to `newpath`, keeping its inode; an entry
    /// under `newpath` is replaced. -1 when `oldpath` names nothing.
    pub fn rename(&mut self, oldpath: &PathBuf, newpath: &PathBuf) -> (r: i32)
        requires
            old(self).wf(),
        ensures
            final(self).wf(),
            old(self).rename_post(*final(self), oldpath@, newpath@, r),
    {
        let old_abs = self.get_absolute_path(oldpath);
        let new_abs = self.get_absolute_path(newpath);
        let n = match self.fs.lookup_inode_by_path(&old_abs) {
            Some(n) => n,
            None => {
                return -1;
            },
        };
        let ghost s = *self;
        self.fs.index_remove(&old_abs);
        self.fs.index_insert(new_abs, n);
        proof {
            assert(self.fs.payloads() == s.fs.payloads());
            Proc::lemma_store_changed(s, *self);
        }
        0
    }

    /// What `link(oldpath, newpath)` leaves and returns, from this state.
    pub open spec fn link_post(&self, t: Proc, oldpath: Seq<u8>, newpath: Seq<u8>, r: i32) -> bool {
        match self.lookup(oldpath) {
            Some(n) => r == 0 && t.index_set(
                *self,
                self.store().index().insert(self.abs(newpath), n),
            ),
            None => r == -1 && t == *self,
        }
    }

    /// Adds the name `newpath` for the inode that `oldpath` names; -1 when
    /// `oldpath` names nothing.
    pub fn link(&mut self, oldpath: &PathBuf, newpath: &PathBuf) -> (r: i32)
        requires
            old(self).wf(),
        ensures
            final(self).wf(),
            old(self).link_post(*final(self), oldpath@, newpath@, r),
    {
        let old_abs = self.get_absolute_path(oldpath);
        let new_abs = self.get_absolute_path(newpath);
        let n = match self.fs.lookup_inode_by_path(&old_abs) {
            Some(n) => n,
            None => {
                return -1;
            },
        };
        let ghost s = *self;
        self.fs.index_insert(new_abs, n);
        proof {
            assert(self.fs.payloads() == s.fs.payloads());
            Proc::lemma_store_changed(s, *self);
        }
        0
    }

    /// What `unlink(path)` leaves and returns, from this state.
    pub open spec fn unlink_post(&self, t: Proc, path: Seq<u8>, r: i32) -> bool {
        match self.lookup(path) {
            Some(n) => if self.store().inode(n).kind is Directory {
                r == -1 && t == *self
            } else {
                r == 0 && t.index_set(
                    *self,
                    self.store().index().remove(self.abs(path)),
                )
            },
            None => r == -1 && t == *self,
        }
    }

    /// Removes the name `path`; the inode and its payload stay. -1 when it
    /// names nothing or a directory.
    pub fn unlink(&mut self, path: &PathBuf) -> (r: i32)
        requires
            old(self).wf(),
        ensures
            final(self).wf(),
            old(self).unlink_post(*final(self), path@, r),
    {
        let abs = self.get_absolute_path(path);
        let n = match self.fs.lookup_inode_by_path(&abs) {
            Some(n) => n,
            None => {
                return -1;
            },
        };
        let is_dir = match self.get_inode(n) {
            Some(inode) => match inode.kind {
                InodeKind::Directory => true,
                _ => false,
            },
            None => {
                return -1;
            },
        };
        if is_dir {
            return -1;
        }
        let ghost s = *self;
        self.fs.index_remove(&abs);
        proof {
            assert(self.fs.payloads() == s.fs.payloads());
            Proc::lemma_store_changed(s, *self);
        }
        0
    }

    /// Registers `path` for a new inode of `kind` with the permissions that
    /// the creation mask leaves of 0o777.
    fn insert_directory_entry(&mut self, path: &PathBuf, kind: InodeKind) -> (n: u64)
        requires
            old(self).wf(),
            old(self).store().next_inode_number < u64::MAX,
        ensures
            final(self).wf(),
            final(self).inode_added(
                *old(self),
                path@,
                n,
                fresh_inode(n, perms_of_mode(((0o777 & !old(self).umask_spec()) & 0o777) as u16), kind),
            ),
    {
        let ghost s = *self;
        let mode = 0o777 & !self.umask_value;
        let n = match kind {
            InodeKind::File => self.fs.create_file(path, mode),
            InodeKind::Directory => self.fs.create_directory(path, mode),
            InodeKind::SymbolicLink(target) => self.fs.create_symlink(path, target, mode),
        };
        proof {
            Proc::lemma_store_changed(s, *self);
        }
        n
    }

    /// What `symlink(target, linkpath)` leaves and returns, from this state.
    pub open spec fn symlink_post(&self, t: Proc, target: PathBuf, linkpath: Seq<u8>, r: i32) -> bool {
        if self.store().next_inode_number < u64::MAX {
            let n = self.store().next_inode_number;
            r == 0 && t.inode_added(
                *self,
                self.abs(linkpath),
                n,
                fresh_inode(
                    n,
                    perms_of_mode(((0o777 & !self.umask_spec()) & 0o777) as u16),
                    InodeKind::SymbolicLink(target),
                ),
            )
        } else {
            r == -1 && t == *self
        }
    }

    /// Makes a symbolic link at `linkpath` whose target is `target`, kept as
    /// given. -1 when no inode number is left.
    pub fn symlink(&mut self, target: PathBuf, linkpath: &PathBuf) -> (r: i32)
        requires
            old(self).wf(),
        ensures
            final(self).wf(),
            old(self).symlink_post(*final(self), target, linkpath@, r),
    {
        if self.fs.next_inode_number == u64::MAX {
            return -1;
        }
        let link_abs = self.get_absolute_path(linkpath);
        self.insert_directory_entry(&link_abs, InodeKind::SymbolicLink(target));
        0
    }

    /// What `readlink(path, buf)` returns and leaves in the buffer (`buf`
    /// before, `nb` after), from this state.
    pub open spec fn readlink_post(&self, path: Seq<u8>, buf: Seq<u8>, nb: Seq<u8>, r: isize) -> bool {
        match self.lookup(path) {
            Some(n) => match self.store().inode(n).kind {
                InodeKind::SymbolicLink(t) => {
                    let k = if t@.len() < buf.len() {
                        t@.len() as int
                    } else {
                        buf.len() as int
                    };
                    r == k && nb == t@.subrange(0, k) + buf.subrange(
                        k,
                        buf.len() as int,
                    )
                },
                _ => r == -1 && nb == buf,
            },
            None => r == -1 && nb == buf,
        }
    }

    /// Copies the front of the target of the symbolic link that `path` names
    /// into `buf`, as much as fits. Returns the count, or -1 when `path` names
    /// nothing or no symbolic link.
    pub fn readlink(&self, path: &PathBuf, buf: &mut [u8]) -> (r: isize)
        requires
            self.wf(),
            old(buf)@.len() <= isize::MAX,
        ensures
            self.readlink_post(path@, old(buf)@, final(buf)@, r),
    {
        let abs = self.get_absolute_path(path);
        let n = match self.fs.lookup_inode_by_path(&abs) {
            Some(n) => n,
            None => {
                return -1;
            },
        };
        match self.get_inode(n) {
            Some(inode) => match &inode.kind {
                InodeKind::SymbolicLink(t) => {
                    let bytes = t.as_bytes();
                    if bytes.len() == 0 {
                        assert(buf@ == bytes@.subrange(0, 0) + buf@.subrange(0, buf@.len() as int));
                        return 0;
                    }
                    let k = fill_from(buf, bytes, 0);
                    assert(bytes@.subrange(0, k as int) == t@.subrange(0, k as int));
                    k as isize
                },
                _ => -1,
            },
            None => -1,
        }
    }

    /// What `mkdir(path, mode)` leaves and returns, from this state.
    pub open spec fn mkdir_post(&self, t: Proc, path: Seq<u8>, mode: u32, r: i32) -> bool {
        if self.lookup(path) is None && self.store().next_inode_number < u64::MAX {
            let n = self.store().next_inode_number;
            r == 0 && t.inode_added(
                *self,
                self.abs(path),
                n,
                fresh_inode(
                    n,
                    perms_of_mode((((mode & 0o777) & !self.umask_spec()) & 0o777) as u16),
                    InodeKind::Directory,
                ),
            )
        } else {
            r == -1 && t == *self
        }
    }

    /// Makes a directory at `path` with the permissions
    /// `(mode & 0o777) & !umask`. -1 when `path` is taken or no inode number is
    /// left.
    pub fn mkdir(&mut self, path: &PathBuf, mode: u32) -> (r: i32)
        requires
            old(self).wf(),
        ensures
            final(self).wf(),
            old(self).mkdir_post(*final(self), path@, mode, r),
    {
        let abs = self.get_absolute_path(path);
        if self.fs.lookup_inode_by_path(&abs).is_some() {
            return -1;
        }
        if self.fs.next_inode_number == u64::MAX {
            return -1;
        }
        let ghost s = *self;
        let adjusted = (mode & 0o777) & !self.umask_value;
        self.fs.create_directory(&abs, adjusted);
        proof {
            Proc::lemma_store_changed(s, *self);
        }
        0
    }

    /// Sets the payload of inode `n` to `new_size` bytes, cutting or
    /// zero-filling it, and its size to match.
    fn set_file_size(&mut self, n: u64, new_size: usize)
        requires
            old(self).wf(),
            n < old(self).store().next_inode_number,
        ensures
            final(self).wf(),
            final(self).payload_set(
                *old(self),
                n,
                resized(old(self).store().payload_or_empty(n), new_size as nat),
            ),
            final(self).handles() == old(self).handles(),
            final(self).same_process_but_handles(*old(self)),
    {
        let ghost s = *self;
        self.fs.resize_payload(n, new_size);
        proof {
            Proc::lemma_store_changed(s, *self);
        }
    }

    /// What `truncate(path, length)` leaves and returns, from this state.
    pub open spec fn truncate_post(&self, t: Proc, path: Seq<u8>, length: i64, r: i32) -> bool {
        match self.lookup(path) {
            Some(n) => if length < 0 || length > usize::MAX {
                r == -1 && t == *self
            } else {
                &&& r == 0
                &&& t.payload_set(
                    *self,
                    n,
                    resized(self.store().payload_or_empty(n), length as nat),
                )
                &&& t.handles() == self.handles()
                &&& t.same_process_but_handles(*self)
            },
            None => r == -1 && t == *self,
        }
    }

    /// Sets the payload of the inode that `path` names to `length` bytes,
    /// cutting or zero-filling it. -1 when it names nothing or `length` is
    /// negative.
    pub fn truncate(&mut self, path: &PathBuf, length: i64) -> (r: i32)
        requires
            old(self).wf(),
        ensures
            final(self).wf(),
            old(self).truncate_post(*final(self), path@, length, r),
    {
        let abs = self.get_absolute_path(path);
        let n = match self.fs.lookup_inode_by_path(&abs) {
            Some(n) => n,
            None => {
                return -1;
            },
        };
        if length < 0 || length as u64 > usize::MAX as u64 {
            return -1;
        }
        self.set_file_size(n, length as usize);
        0
    }

    /// `truncate` on the inode behind `fd`; -1 when `fd` is not open.
    pub fn ftruncate(&mut self, fd: i32, length: i64) -> (r: i32)
        requires
            old(self).wf(),
        ensures
            final(self).wf(),
            if !old(self).is_open(fd) || length < 0 || length > usize::MAX {
                r == -1 && *final(self) == *old(self)
            } else {
                let n = old(self).handles()[fd].inode_number;
                &&& r == 0
                &&& final(self).payload_set(*old(self), n, resized(old(self).fd_payload(fd), length as nat))
                &&& final(self).handles() == old(self).handles()
                &&& final(self).same_process_but_handles(*old(self))
            },
    {
        if length < 0 || length as u64 > usize::MAX as u64 {
            return -1;
        }
        let n = match self.fd_entry(fd) {
            Some(n) => n,
            None => {
                return -1;
            },
        };
        self.set_file_size(n, length as usize);
        0
    }

    /// Grows the payload behind `fd` with zeroes to at least `offset + len`
    /// bytes. -1 when an argument is negative or `fd` is not open.
    pub fn fallocate(&mut self, fd: i32, mode: i32, offset: i64, len: i64) -> (r: i32)
        requires
            old(self).wf(),
        ensures
            final(self).wf(),
            if offset < 0 || len < 0 || !old(self).is_open(fd) || offset + len > usize::MAX {
                r == -1 && *final(self) == *old(self)
            } else {
                let n = old(self).handles()[fd].inode_number;
                let d = old(self).fd_payload(fd);
                &&& r == 0
                &&& final(self).payload_set(
                    *old(self),
                    n,
                    if d.len() < offset + len {
                        resized(d, (offset + len) as nat)
                    } else {
                        d
                    },
                )
                &&& final(self).handles() == old(self).handles()
                &&& final(self).same_process_but_handles(*old(self))
            },
    {
        if offset < 0 || len < 0 {
            return -1;
        }
        let n = match self.fd_entry(fd) {
            Some(n) => n,
            None => {
                return -1;
            },
        };
        let end: u64 = offset as u64 + len as u64;
        if end > usize::MAX as u64 {
            return -1;
        }
        let cur = match self.fs.files.get(&n) {
            Some(d) => d.len(),
            None => {
                return -1;
            },
        };
        let target = if cur < end as usize {
            end as usize
        } else {
            cur
        };
        proof {
            let d = self.fs.payloads()[n];
            assert(resized(d, d.len()) == d);
        }
        self.set_file_size(n, target);
        0
    }

    /// Copies the working directory and a NUL into the front of `buf`; -1,
    /// with `buf` untouched, when they do not fit.
    pub fn getcwd(&self, buf: &mut [u8]) -> (r: i32)
        requires
            self.wf(),
        ensures
            ({
                let c = self.store().current_directory@;
                if c.len() + 1 > old(buf)@.len() {
                    r == -1 && final(buf)@ == old(buf)@
                } else {
                    r == 0 && final(buf)@ == c + seq![0u8] + old(buf)@.subrange(
                        c.len() + 1int,
                        old(buf)@.len() as int,
                    )
                }
            }),
    {
        let bytes = self.fs.current_directory.as_bytes();
        if bytes.len() >= buf.len() {
            return -1;
        }
        let ghost b0 = buf@;
        let mut i: usize = 0;
        while i < bytes.len()
            invariant
                i <= bytes@.len(),
                bytes@.len() < buf@.len(),
                buf@.len() == b0.len(),
                forall|j: int| 0 <= j < buf@.len() ==> #[trigger] buf@[j] == if j < i {
                    bytes@[j]
                } else {
                    b0[j]
                },
            decreases bytes@.len() - i,
        {
            buf[i] = bytes[i];
            i = i + 1;
        }
        buf[bytes.len()] = 0;
        assert(buf@ == bytes@ + seq![0u8] + b0.subrange(bytes@.len() + 1int, b0.len() as int));
        0
    }

    /// Makes `path`, resolved, the working directory; -1 when it names nothing
    /// or no directory.
    pub fn chdir(&mut self, path: &PathBuf) -> (r: i32)
        requires
            old(self).wf(),
        ensures
            final(self).wf(),
            match old(self).lookup(path@) {
                Some(n) => if old(self).store().inode(n).kind is Directory {
                    &&& r == 0
                    &&& final(self).store().current_directory@ == old(self).abs(path@)
                    &&& final(self).store().index() == old(self).store().index()
                    &&& final(self).store().inodes == old(self).store().inodes
                    &&& final(self).store().files == old(self).store().files
                    &&& final(self).same_process(*old(self))
                } else {
                    r == -1 && *final(self) == *old(self)
                },
                None => r == -1 && *final(self) == *old(self),
            },
    {
        let abs = self.get_absolute_path(path);
        let n = match self.fs.lookup_inode_by_path(&abs) {
            Some(n) => n,
            None => {
                return -1;
            },
        };
        let is_dir = match self.get_inode(n) {
            Some(inode) => match inode.kind {
                InodeKind::Directory => true,
                _ => false,
            },
            None => {
                return -1;
            },
        };
        if !is_dir {
            return -1;
        }
        let ghost s = *self;
        proof {
            lemma_abs_absolute(self.fs.current_directory@, path@);
        }
        self.fs.set_current_directory(abs);
        proof {
            assert(self.fs.payloads() == s.fs.payloads());
            Proc::lemma_store_changed(s, *self);
        }
        0
    }

    /// The pairs of the path index, in the order in which it is walked.
    pub open spec fn path_pairs(&self) -> Seq<(PathBuf, u64)> {
        self.store().path_map.pairs()
    }

    /// The first path, in walking order, that names inode `n`.
    fn path_of_inode(&self, n: u64) -> (r: Option<PathBuf>)
        requires
            self.wf(),
        ensures
            match r {
                Some(p) => first_path_to(self.path_pairs(), n) == Some(p@),
                None => first_path_to(self.path_pairs(), n) is None,
            },
    {
        let pairs = self.fs.path_map.iter();
        let ghost ps = self.path_pairs();
        let mut j: usize = 0;
        while j < pairs.len()
            invariant
                ps == self.path_pairs(),
                j <= pairs@.len() == ps.len(),
                forall|k: int| 0 <= k < pairs@.len() ==> *(#[trigger] pairs@[k]).0 == ps[k].0 && *pairs@[k].1 == ps[k].1,
                first_path_to(ps.subrange(0, j as int), n) is None,
            decreases pairs@.len() - j,
        {
            assert(ps.subrange(0, j + 1).drop_last() == ps.subrange(0, j as int));
            assert(ps.subrange(0, j + 1).last() == ps[j as int]);
            if *pairs[j].1 == n {
                let p = pairs[j].0.clone();
                proof {
                    lemma_first_path_prefix(ps, j + 1, n);
                }
                return Some(p);
            }
            j = j + 1;
        }
        assert(ps.subrange(0, ps.len() as int) == ps);
        None
    }

    /// What `rmdir(path)` leaves and returns, from this state.
    pub open spec fn rmdir_post(&self, t: Proc, path: Seq<u8>, r: i32) -> bool {
        match self.lookup(path) {
            Some(n) => if self.store().inode(n).kind is Directory && !has_child(
                self.store().index(),
                self.abs(path),
            ) {
                r == 0 && t.index_set(
                    *self,
                    self.store().index().remove(self.abs(path)),
                )
            } else {
                r == -1 && t == *self
            },
            None => r == -1 && t == *self,
        }
    }

    /// Removes the directory `path`; -1 when it names nothing, no directory,
    /// or a directory that some path of the index lies directly inside.
    pub fn rmdir(&mut self, path: &PathBuf) -> (r: i32)
        requires
            old(self).wf(),
        ensures
            final(self).wf(),
            old(self).rmdir_post(*final(self), path@, r),
    {
        let abs = self.get_absolute_path(path);
        let n = match self.fs.lookup_inode_by_path(&abs) {
            Some(n) => n,
            None => {
                return -1;
            },
        };
        let is_dir = match self.get_inode(n) {
            Some(inode) => match inode.kind {
                InodeKind::Directory => true,
                _ => false,
            },
            None => {
                return -1;
            },
        };
        if !is_dir {
            return -1;
        }
        let pairs = self.fs.path_map.iter();
        let ghost ps = self.path_pairs();
        proof {
            self.fs.path_map.lemma_pairs_in_map();
        }
        let mut j: usize = 0;
        while j < pairs.len()
            invariant
                self.wf(),
                *self == *old(self),
                abs@ == old(self).abs(path@),
                old(self).lookup(path@) == Some(n),
                old(self).store().inode(n).kind is Directory,
                ps == self.path_pairs(),
                forall|k: int| 0 <= k < ps.len() ==> self.fs.index().contains_key((#[trigger] ps[k]).0@),
                j <= pairs@.len() == ps.len(),
                forall|k: int| 0 <= k < pairs@.len() ==> *(#[trigger] pairs@[k]).0 == ps[k].0,
                forall|k: int| 0 <= k < j ==> parent_seq((#[trigger] ps[k]).0@) != Some(abs@),
            decreases pairs@.len() - j,
        {
            match pairs[j].0.parent() {
                Some(pp) => {
                    if pp.same_key(&abs) {
                        proof {
                            assert(self.fs.index().contains_key(ps[j as int].0@));
                            assert(has_child(self.fs.index(), abs@));
                        }
                        return -1;
                    }
                },
                None => {},
            }
            j = j + 1;
        }
        proof {
            self.fs.path_map.lemma_map_in_pairs();
            assert forall|q: Seq<u8>| self.fs.index().contains_key(q) implies parent_seq(q) != Some(
                abs@,
            ) by {
                let k = choose|k: int| 0 <= k < ps.len() && (#[trigger] ps[k]).0@ == q;
            }
        }
        let ghost s = *self;
        self.fs.index_remove(&abs);
        proof {
            assert(self.fs.payloads() == s.fs.payloads());
            Proc::lemma_store_changed(s, *self);
        }
        0
    }

    /// Makes the first path, in walking order, that names the directory
    /// behind `fd` the working directory. -1 when `fd` is not open, its inode
    /// is no directory, or no absolute path names it.
    pub fn fchdir(&mut self, fd: i32) -> (r: i32)
        requires
            old(self).wf(),
        ensures
            final(self).wf(),
            ({
                let n = old(self).handles()[fd].inode_number;
                let p = first_path_to(old(self).path_pairs(), n);
                if old(self).is_open(fd) && old(self).store().inode(n).kind is Directory && p is Some
                    && is_absolute_seq(p->Some_0) {
                    &&& r == 0
                    &&& final(self).store().current_directory@ == p->Some_0
                    &&& final(self).store().index() == old(self).store().index()
                    &&& final(self).store().inodes == old(self).store().inodes
                    &&& final(self).store().files == old(self).store().files
                    &&& final(self).same_process(*old(self))
                } else {
                    r == -1 && *final(self) == *old(self)
                }
            }),
    {
        let n = match self.fd_entry(fd) {
            Some(n) => n,
            None => {
                return -1;
            },
        };
        let is_dir = match self.get_inode(n) {
            Some(inode) => match inode.kind {
                InodeKind::Directory => true,
                _ => false,
            },
            None => {
                return -1;
            },
        };
        if !is_dir {
            return -1;
        }
        let p = match self.path_of_inode(n) {
            Some(p) => p,
            None => {
                return -1;
            },
        };
        if !p.is_absolute() {
            return -1;
        }
        let ghost s = *self;
        self.fs.set_current_directory(p);
        proof {
            assert(self.fs.payloads() == s.fs.payloads());
            Proc::lemma_store_changed(s, *self);
        }
        0
    }

    /// The path that `getdents` lists the children of for directory inode
    /// `n`: `/` for the root, else the first path that names it, else `/`.
    pub open spec fn dir_path_of(&self, n: u64) -> Seq<u8> {
        if n == 0 {
            root_seq()
        } else {
            match first_path_to(self.path_pairs(), n) {
                Some(p) => p,
                None => root_seq(),
            }
        }
    }

    /// The entries of the path index directly inside `dir`, in walking order.
    fn children_of(&self, dir: &PathBuf) -> (r: Vec<(PathBuf, u64)>)
        requires
            self.wf(),
        ensures
            r@.map_values(|e: (PathBuf, u64)| (e.0@, e.1)) == children_in(self.path_pairs(), dir@),
            forall|j: int| 0 <= j < r@.len() ==> (#[trigger] r@[j]).1 < self.store().next_inode_number,
    {
        let pairs = self.fs.path_map.iter();
        let ghost ps = self.path_pairs();
        proof {
            self.fs.path_map.lemma_pairs_in_map();
        }
        proof {
            assert forall|k: int| 0 <= k < ps.len() implies (#[trigger] ps[k]).1
                < self.store().next_inode_number by {
                assert(self.fs.index().contains_key(ps[k].0@));
            }
        }
        let mut out: Vec<(PathBuf, u64)> = Vec::new();
        let mut j: usize = 0;
        while j < pairs.len()
            invariant
                self.wf(),
                ps == self.path_pairs(),
                j <= pairs@.len() == ps.len(),
                forall|k: int| 0 <= k < pairs@.len() ==> *(#[trigger] pairs@[k]).0 == ps[k].0 && *pairs@[k].1 == ps[k].1,
                forall|k: int| 0 <= k < ps.len() ==> (#[trigger] ps[k]).1 < self.store().next_inode_number,
                out@.map_values(|e: (PathBuf, u64)| (e.0@, e.1)) == children_in(ps.subrange(0, j as int), dir@),
                forall|k: int| 0 <= k < out@.len() ==> (#[trigger] out@[k]).1 < self.store().next_inode_number,
            decreases pairs@.len() - j,
        {
            assert(ps.subrange(0, j + 1).drop_last() == ps.subrange(0, j as int));
            let p = pairs[j].0;
            let v = *pairs[j].1;
            if !p.same_key(dir) {
                match p.parent() {
                    Some(pp) => {
                        if pp.same_key(dir) {
                            let ghost before = out@;
                            out.push((p.clone(), v));
                            assert(out@.map_values(|e: (PathBuf, u64)| (e.0@, e.1)) == before.map_values(
                                |e: (PathBuf, u64)| (e.0@, e.1),
                            ).push((p@, v)));
                        }
                    },
                    None => {},
                }
            }
            j = j + 1;
        }
        assert(ps.subrange(0, ps.len() as int) == ps);
        out
    }

    /// What `getdents(fd, count)` leaves and returns, from this state; `out` is
    /// the records written.
    pub open spec fn getdents_post(&self, t: Proc, fd: i32, count: usize, out: Seq<Dirent>, r: isize) -> bool {
        let h = self.handles()[fd];
        let n = h.inode_number;
        if !self.is_open(fd) || !(self.store().inode(n).kind is Directory) {
            r == -1 && t == *self && out.len() == 0
        } else {
            let fit = listable(children_in(self.path_pairs(), self.dir_path_of(n)));
            let ls = if h.position < fit.len() {
                fit.subrange(h.position as int, fit.len() as int)
            } else {
                Seq::empty()
            };
            let max = count / DIRENT_RECORD_LEN;
            let k: int = if ls.len() < max {
                ls.len() as int
            } else {
                max as int
            };
            &&& r == k * DIRENT_RECORD_LEN
            &&& out.len() == k
            &&& forall|j: int|
                0 <= j < k ==> is_record(
                    #[trigger] out[j],
                    entry_name(ls[j].0),
                    ls[j].1,
                    h.position + j + 1,
                    dtype_of(self.store().inode(ls[j].1).kind),
                )
            &&& t.handles() == self.handles().insert(fd, OpenFileHandle { position: (h.position + k) as u64, ..h })
            &&& t.store() == self.store()
            &&& t.same_process_but_handles(*self)
        }
    }

    /// Lists the children of the directory behind `fd` into `out`: paths of
    /// the index whose parent is the directory's path and whose name is under
    /// 256 bytes, in walking order, from the entry the position counts, while
    /// records fit in `count` bytes. The position moves on by the records
    /// written. Returns the bytes written, 0 at the end, -1 when `fd`
    /// is not open or not a directory.
    pub fn getdents(&mut self, fd: i32, count: usize, out: &mut Vec<Dirent>) -> (r: isize)
        requires
            old(self).wf(),
            count <= isize::MAX,
        ensures
            final(self).wf(),
            old(self).getdents_post(*final(self), fd, count, final(out)@, r),
    {
        out.clear();
        let h = match self.open_files.get(&fd) {
            Some(h) => *h,
            None => {
                return -1;
            },
        };
        let n = h.inode_number;
        let is_dir = match self.get_inode(n) {
            Some(inode) => match inode.kind {
                InodeKind::Directory => true,
                _ => false,
            },
            None => {
                return -1;
            },
        };
        if !is_dir {
            return -1;
        }
        let dir = if n == 0 {
            PathBuf::root()
        } else {
            match self.path_of_inode(n) {
                Some(p) => p,
                None => PathBuf::root(),
            }
        };
        let cs = self.children_of(&dir);
        let ghost csv = cs@.map_values(|e: (PathBuf, u64)| (e.0@, e.1));
        let mut fit: Vec<(PathBuf, u64)> = Vec::new();
        let mut i: usize = 0;
        while i < cs.len()
            invariant
                self.wf(),
                i <= cs@.len() == csv.len(),
                csv == cs@.map_values(|e: (PathBuf, u64)| (e.0@, e.1)),
                forall|k: int| 0 <= k < cs@.len() ==> (#[trigger] cs@[k]).1 < self.store().next_inode_number,
                fit@.map_values(|e: (PathBuf, u64)| (e.0@, e.1)) == listable(csv.subrange(0, i as int)),
                forall|k: int| 0 <= k < fit@.len() ==> (#[trigger] fit@[k]).1 < self.store().next_inode_number,
                forall|k: int| 0 <= k < fit@.len() ==> entry_name((#[trigger] fit@[k]).0@).len() < DIRENT_NAME_LEN,
            decreases cs@.len() - i,
        {
            assert(csv.subrange(0, i + 1).drop_last() == csv.subrange(0, i as int));
            assert(csv.subrange(0, i + 1).last() == csv[i as int]);
            let short = match cs[i].0.file_name() {
                Some(v) => v.len() < DIRENT_NAME_LEN,
                None => true,
            };
            if short {
                let ghost before = fit@;
                fit.push((cs[i].0.clone(), cs[i].1));
                assert(fit@.map_values(|e: (PathBuf, u64)| (e.0@, e.1)) == before.map_values(
                    |e: (PathBuf, u64)| (e.0@, e.1),
                ).push(csv[i as int]));
            }
            i = i + 1;
        }
        assert(csv.subrange(0, csv.len() as int) == csv);
        let ghost fv = fit@.map_values(|e: (PathBuf, u64)| (e.0@, e.1));
        let ghost ls = if h.position < fv.len() {
            fv.subrange(h.position as int, fv.len() as int)
        } else {
            Seq::empty()
        };
        let max = count / DIRENT_RECORD_LEN;
        let start: usize = if h.position < fit.len() as u64 {
            h.position as usize
        } else {
            fit.len()
        };
        let avail = fit.len() - start;
        let k = if avail < max {
            avail
        } else {
            max
        };
        let mut j: usize = 0;
        while j < k
            invariant
                self.wf(),
                j <= k <= fit.len() - start,
                k <= max,
                start <= fit.len(),
                h.position < fv.len() ==> start == h.position,
                h.position >= fv.len() ==> start == fv.len(),
                fv == fit@.map_values(|e: (PathBuf, u64)| (e.0@, e.1)),
                forall|x: int| 0 <= x < fit@.len() ==> (#[trigger] fit@[x]).1 < self.store().next_inode_number,
                forall|x: int| 0 <= x < fit@.len() ==> entry_name((#[trigger] fit@[x]).0@).len() < DIRENT_NAME_LEN,
                out@.len() == j,
                forall|x: int|
                    0 <= x < j ==> is_record(
                        #[trigger] out@[x],
                        entry_name(fv[start + x].0),
                        fv[start + x].1,
                        start + x + 1,
                        dtype_of(self.store().inode(fv[start + x].1).kind),
                    ),
            decreases k - j,
        {
            let e = &fit[start + j];
            let name = match e.0.file_name() {
                Some(v) => v,
                None => Vec::new(),
            };
            assert(fit@[start + j].0@ == fv[start + j].0);
            let ino = e.1;
            let dtype = match self.get_inode(ino) {
                Some(inode) => inode_kind_to_dtype(&inode.kind),
                None => 0,
            };
            let off = #[verifier::truncate] ((start + j + 1) as i64);
            out.push(make_dirent(&name, ino, off, dtype));
            j = j + 1;
        }
        proof {
            if h.position < fv.len() {
                assert forall|x: int| 0 <= x < k implies ls[x] == fv[start + x] by {}
            }
        }
        self.update_handle(fd, OpenFileHandle { position: h.position + k as u64, ..h });
        (k * DIRENT_RECORD_LEN) as isize
    }

    /// For each of `files` in turn, opens its path with
    /// `O_WRONLY | O_CREAT | O_TRUNC` and mode 0o644, writes its data and
    /// closes it; a file that cannot be opened is passed over. Returns 0.
    pub fn mount_in_memory(&mut self, files: &Vec<FileDef>) -> (r: i32)
        requires
            old(self).wf(),
            forall|i: int| 0 <= i < files@.len() ==> (#[trigger] files@[i]).data@.len() <= isize::MAX,
        ensures
            final(self).wf(),
            r == 0,
            mount_all(*old(self), *final(self), file_defs_view(files@)),
            final(self).handles() == old(self).handles(),
            final(self).umask_spec() == old(self).umask_spec(),
            final(self).stdout_pending() == old(self).stdout_pending(),
            final(self).stdout_lines() == old(self).stdout_lines(),
    {
        let ghost fv = file_defs_view(files@);
        let ghost mut states: Seq<Proc> = seq![*self];
        let mut i: usize = 0;
        while i < files.len()
            invariant
                self.wf(),
                i <= files@.len(),
                fv == file_defs_view(files@),
                forall|k: int| 0 <= k < files@.len() ==> (#[trigger] files@[k]).data@.len() <= isize::MAX,
                mount_chain(states, *old(self), *self, fv.subrange(0, i as int)),
                self.handles() == old(self).handles(),
                self.umask_spec() == old(self).umask_spec(),
                self.stdout_pending() == old(self).stdout_pending(),
                self.stdout_lines() == old(self).stdout_lines(),
            decreases files@.len() - i,
        {
            let f = &files[i];
            let ghost s0 = *self;
            let fd = self.open(&f.dest_path, O_WRONLY | O_CREAT | O_TRUNC, 0o644);
            let ghost s1 = *self;
            if fd >= 0 {
                assert(s0.fd_free(fd as int));
                let w = self.write(fd, f.data.as_slice());
                let ghost s2 = *self;
                assert(s2.is_open(fd));
                let c = self.close(fd);
                proof {
                    assert(self.handles() =~= s0.handles());
                    assert(s1.write_post(s2, fd, f.data@, w) && s2.close_post(*self, fd, c));
                }
            }
            proof {
                assert(s0.open_post(s1, f.dest_path@, mount_flags(), 0o644, fd));
                assert(mount_step(s0, *self, f.dest_path@, f.data@));
                let step = fv.subrange(0, i + 1);
                assert(step.last() == (f.dest_path@, f.data@));
                assert(fv[i as int] == (files@[i as int].dest_path@, files@[i as int].data@));
                let old_states = states;
                states = states.push(*self);
                assert forall|k: int| 0 <= k < step.len() implies mount_step(
                    #[trigger] states[k],
                    states[k + 1],
                    step[k].0,
                    step[k].1,
                ) by {
                    if k < i {
                        assert(states[k] == old_states[k]);
                        assert(states[k + 1] == old_states[k + 1]);
                        assert(step[k] == fv.subrange(0, i as int)[k]);
                    }
                }
            }
            i = i + 1;
        }
        assert(fv.subrange(0, files@.len() as int) == fv);
        assert(mount_chain(states, *old(self), *self, fv));
        0
    }

    /// The lowest descriptor at or above `FIRST_FD` that is not in use.
    fn allocate_fd(&self) -> (r: Option<FileDescriptor>)
        requires
            self.wf(),
        ensures
            match r {
                Some(fd) => self.lowest_free(fd as int),
                None => !self.has_free_fd(),
            },
    {
        let mut i: usize = FIRST_FD;
        while i < FD_TABLE_SIZE
            invariant
                self.wf(),
                FIRST_FD <= i <= FD_TABLE_SIZE,
                forall|f: int| FIRST_FD <= f < i ==> !self.fd_free(f),
            decreases FD_TABLE_SIZE - i,
        {
            if self.fd_table[i].is_none() {
                assert(self.fd_table@[i as int] is None);
                return Some(i as FileDescriptor);
            }
            assert(self.fd_table@[i as int] is Some);
            i = i + 1;
        }
        None
    }

    /// `path` resolved against the working directory.
    fn get_absolute_path(&self, path: &PathBuf) -> (r: PathBuf)
        ensures
            r@ == self.abs(path@),
    {
        if path.is_absolute() {
            path.clone()
        } else {
            self.fs.current_directory.join(path)
        }
    }

    /// Opens `fd` with handle `h`.
    fn install(&mut self, fd: FileDescriptor, h: OpenFileHandle)
        requires
            old(self).wf(),
            0 <= fd < FD_TABLE_SIZE,
            !old(self).is_open(fd),
            old(self).store().payloads().contains_key(h.inode_number),
        ensures
            final(self).wf(),
            final(self).handles() == old(self).handles().insert(fd, h),
            final(self).store() == old(self).store(),
            final(self).umask_spec() == old(self).umask_spec(),
            final(self).stdout_pending() == old(self).stdout_pending(),
            final(self).stdout_lines() == old(self).stdout_lines(),
    {
        self.fd_table.set(fd as usize, Some(h.inode_number));
        self.open_files.insert(fd, h);
        proof {
            assert forall|i: int| 0 <= i < FD_TABLE_SIZE implies #[trigger] self.fd_table@[i] == (
            if self.open_files@.contains_key(i as i32) {
                Some(self.open_files@[i as i32].inode_number)
            } else {
                None
            }) by {
                if i != fd {
                    assert(i as i32 != fd);
                }
            }
        }
    }

    /// Replaces the handle of open descriptor `fd` by `h`, which names the same
    /// inode.
    fn update_handle(&mut self, fd: FileDescriptor, h: OpenFileHandle)
        requires
            old(self).wf(),
            old(self).is_open(fd),
            old(self).handles()[fd].inode_number == h.inode_number,
        ensures
            final(self).wf(),
            final(self).handles() == old(self).handles().insert(fd, h),
            final(self).store() == old(self).store(),
            final(self).umask_spec() == old(self).umask_spec(),
            final(self).stdout_pending() == old(self).stdout_pending(),
            final(self).stdout_lines() == old(self).stdout_lines(),
    {
        self.open_files.insert(fd, h);
        proof {
            assert forall|i: int| 0 <= i < FD_TABLE_SIZE implies #[trigger] self.fd_table@[i] == (
            if self.open_files@.contains_key(i as i32) {
                Some(self.open_files@[i as i32].inode_number)
            } else {
                None
            }) by {
                if i != fd {
                    assert(i as i32 != fd);
                }
            }
        }
    }

    /// Closes open descriptor `fd`.
    fn release(&mut self, fd: FileDescriptor)
        requires
            old(self).wf(),
            old(self).is_open(fd),
        ensures
            final(self).wf(),
            final(self).handles() == old(self).handles().remove(fd),
            final(self).store() == old(self).store(),
            final(self).umask_spec() == old(self).umask_spec(),
            final(self).stdout_pending() == old(self).stdout_pending(),
            final(self).stdout_lines() == old(self).stdout_lines(),
    {
        self.fd_table.set(fd as usize, None);
        self.open_files.remove(&fd);
        proof {
            assert forall|i: int| 0 <= i < FD_TABLE_SIZE implies #[trigger] self.fd_table@[i] == (
            if self.open_files@.contains_key(i as i32) {
                Some(self.open_files@[i as i32].inode_number)
            } else {
                None
            }) by {
                if i != fd {
                    assert(i as i32 != fd);
                }
            }
        }
    }
}

} // verus!
