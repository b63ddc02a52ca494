//! Laws that relate the operations of a process to one another.

use crate::filesystem::{perms_of_mode, resized, written_at};
use crate::path::{last_slash, lemma_last_slash, lemma_trim_end_slashes, parent_seq, trim_end_slashes, PathBuf};
use crate::system::{has_child, stat_of, Proc, FD_TABLE_SIZE, O_APPEND, SEEK_CUR, STDOUT_FD};
use vstd::prelude::*;

verus! {

/// Every name in the path index resolves to an inode of the table, and every
/// set slot of the descriptor table names an inode of the table.
pub proof fn law_names_resolve(p: Proc)
    requires
        p.wf(),
    ensures
        forall|q: Seq<u8>| #[trigger]
            p.store().index().contains_key(q) ==> p.store().index()[q] < p.store().inodes@.len(),
        forall|fd: int|
            0 <= fd < FD_TABLE_SIZE && (#[trigger] p.fd_slot(fd)) is Some ==> p.fd_slot(fd)->Some_0
                < p.store().inodes@.len(),
{
    p.lemma_wf_facts();
    assert forall|fd: int|
        0 <= fd < FD_TABLE_SIZE && (#[trigger] p.fd_slot(fd)) is Some implies p.fd_slot(fd)->Some_0
            < p.store().inodes@.len() by {
        assert(p.is_open(fd as i32));
        assert(p.store().payloads().contains_key(p.handles()[fd as i32].inode_number));
    }
}

/// The size of every file inode is the length of its payload.
pub proof fn law_file_sizes(p: Proc)
    requires
        p.wf(),
    ensures
        forall|n: u64|
            n < p.store().next_inode_number && (#[trigger] p.store().inode(n)).kind is File ==> {
                &&& p.store().payloads().contains_key(n)
                &&& p.store().inode(n).size == p.store().payloads()[n].len()
            },
{
    p.lemma_wf_facts();
    assert forall|n: u64|
        n < p.store().next_inode_number && (#[trigger] p.store().inode(n)).kind is File implies {
        &&& p.store().payloads().contains_key(n)
        &&& p.store().inode(n).size == p.store().payloads()[n].len()
    } by {
        if !p.store().payloads().contains_key(n) {
            assert(p.store().inode(n).kind is SymbolicLink);
        }
    }
}

/// Writing `data`, seeking back by its length and reading as many bytes
/// gives `data` back.
pub proof fn law_write_seek_read(
    s0: Proc,
    s1: Proc,
    s2: Proc,
    s3: Proc,
    fd: i32,
    data: Seq<u8>,
    w: isize,
    l: i64,
    buf: Seq<u8>,
    nb: Seq<u8>,
    r: isize,
)
    requires
        fd != STDOUT_FD,
        data.len() <= i64::MAX,
        s0.write_post(s1, fd, data, w),
        w >= 0,
        s1.lseek_post(s2, fd, (-(data.len() as int)) as i64, SEEK_CUR, l),
        l >= 0,
        s2.read_post(s3, fd, buf, nb, r),
        buf.len() == data.len(),
    ensures
        r == data.len(),
        nb == data,
{
    let h = s0.handles()[fd];
    let d = s0.fd_payload(fd);
    let pos: int = if h.append_mode {
        d.len() as int
    } else {
        h.position as int
    };
    let d1 = written_at(d, pos as nat, data);
    assert(s1.fd_payload(fd) == d1);
    assert(s2.handles()[fd].position == pos);
    assert(s2.fd_payload(fd) == d1);
    if data.len() == 0 {
        assert(nb == data);
    } else {
        assert(nb.subrange(0, data.len() as int) == d1.subrange(pos, pos + data.len()));
        assert(d1.subrange(pos, pos + data.len()) == data);
        assert(nb == data);
    }
}

/// `pwrite64` leaves the position of its descriptor where it was, as a later
/// `lseek(fd, 0, SEEK_CUR)` shows.
pub proof fn law_pwrite_keeps_position(
    s0: Proc,
    s1: Proc,
    s2: Proc,
    fd: i32,
    data: Seq<u8>,
    offset: i64,
    w: isize,
    l: i64,
)
    requires
        s0.is_open(fd),
        s0.handles()[fd].position <= i64::MAX,
        s0.pwrite_post(s1, fd, data, offset, w),
        s1.lseek_post(s2, fd, 0, SEEK_CUR, l),
    ensures
        s1.handles()[fd] == s0.handles()[fd],
        l == s0.handles()[fd].position,
{
}

/// After opening with `O_APPEND`, two writes leave the payload ending in
/// both pieces of data, one after the other, whatever seek comes between
/// them.
pub proof fn law_append_writes(
    sp: Proc,
    s0: Proc,
    s1: Proc,
    s2: Proc,
    s3: Proc,
    path: Seq<u8>,
    flags: i32,
    mode: u32,
    fd: i32,
    d1: Seq<u8>,
    w1: isize,
    offset: i64,
    whence: i32,
    l: i64,
    d2: Seq<u8>,
    w2: isize,
)
    requires
        flags & O_APPEND == O_APPEND,
        sp.open_post(s0, path, flags, mode, fd),
        fd != -1,
        s0.write_post(s1, fd, d1, w1),
        w1 >= 0,
        s1.lseek_post(s2, fd, offset, whence, l),
        s2.write_post(s3, fd, d2, w2),
        w2 >= 0,
    ensures
        ({
            let p = s3.fd_payload(fd);
            &&& p.len() >= d1.len() + d2.len()
            &&& p.subrange(p.len() - d1.len() - d2.len(), p.len() as int) == d1 + d2
        }),
{
    assert(s0.handles()[fd].append_mode);
    let d = s0.fd_payload(fd);
    assert(written_at(d, d.len(), d1) == d + d1);
    assert(s1.fd_payload(fd) == d + d1);
    assert(s2.handles()[fd].append_mode);
    assert(s2.fd_payload(fd) == d + d1);
    assert(written_at(d + d1, (d + d1).len(), d2) == d + d1 + d2);
    let p = s3.fd_payload(fd);
    assert(p == d + d1 + d2);
    assert(p.subrange(p.len() - d1.len() - d2.len(), p.len() as int) == d1 + d2);
}

/// A descriptor made by `dup` starts at the position of the one it copies, and a
/// read through either one leaves the other where it was.
pub proof fn law_dup_independent(
    s0: Proc,
    s1: Proc,
    s2: Proc,
    fd: i32,
    fd2: i32,
    reader: i32,
    buf: Seq<u8>,
    nb: Seq<u8>,
    r: isize,
)
    requires
        s0.dup_post(s1, fd, fd2),
        fd2 != -1,
        reader == fd || reader == fd2,
        s1.read_post(s2, reader, buf, nb, r),
    ensures
        fd != fd2,
        s1.handles()[fd2] == s0.handles()[fd],
        reader == fd ==> s2.handles()[fd2] == s1.handles()[fd2],
        reader == fd2 ==> s2.handles()[fd] == s1.handles()[fd],
{
}

/// The parent of a path is shorter than the path.
pub proof fn lemma_parent_shorter(s: Seq<u8>)
    requires
        s.len() > 0,
        parent_seq(s) is Some,
    ensures
        parent_seq(s)->Some_0.len() < s.len(),
{
    let t = trim_end_slashes(s);
    lemma_trim_end_slashes(s);
    lemma_last_slash(t);
    if t.len() == 0 {
        if s.len() == 1 {
            assert(s[0] == crate::path::SLASH);
            assert(s =~= crate::path::root_seq());
        }
    } else {
        let i = last_slash(t);
        if i == 0 {
            assert(t[0] == crate::path::SLASH);
            assert(t.len() >= 2);
        }
    }
}

/// `mkdir(p)` followed by `rmdir(p)` leaves the path index as it was, where
/// no path of the index already lay directly inside `p`.
pub proof fn law_mkdir_rmdir(s0: Proc, s1: Proc, s2: Proc, path: Seq<u8>, mode: u32, r: i32)
    requires
        s0.wf(),
        s0.mkdir_post(s1, path, mode, 0),
        s1.rmdir_post(s2, path, r),
        !has_child(s0.store().index(), s0.abs(path)),
    ensures
        r == 0,
        s2.store().index() == s0.store().index(),
{
    s0.lemma_wf_facts();
    crate::system::lemma_abs_absolute(s0.store().current_directory@, path);
    let a = s0.abs(path);
    assert(s1.abs(path) == a);
    let n = s0.store().next_inode_number;
    assert(s1.store().inode(n).kind is Directory);
    if has_child(s1.store().index(), a) {
        let q = choose|q: Seq<u8>| s1.store().index().contains_key(q) && parent_seq(q) == Some(a);
        if q == a {
            lemma_parent_shorter(q);
        } else {
            assert(s0.store().index().contains_key(q));
        }
    }
    assert(s2.store().index() == s0.store().index());
}

/// After `mkdir(p)` and `mkdir(c)` for a path `c` directly inside `p`,
/// `rmdir(p)` fails.
pub proof fn law_rmdir_nonempty(
    s0: Proc,
    s1: Proc,
    s2: Proc,
    s3: Proc,
    p: Seq<u8>,
    m1: u32,
    c: Seq<u8>,
    m2: u32,
    r: i32,
)
    requires
        s0.mkdir_post(s1, p, m1, 0),
        s1.mkdir_post(s2, c, m2, 0),
        parent_seq(s1.abs(c)) == Some(s1.abs(p)),
        s2.rmdir_post(s3, p, r),
    ensures
        r == -1,
{
    assert(s2.abs(p) == s1.abs(p));
    assert(s2.store().index().contains_key(s1.abs(c)));
    assert(has_child(s2.store().index(), s2.abs(p)));
}

/// `readlink` on a link that `symlink` just made gives back its target, as
/// much as the buffer holds.
pub proof fn law_symlink_readlink(
    s0: Proc,
    s1: Proc,
    target: PathBuf,
    link: Seq<u8>,
    buf: Seq<u8>,
    nb: Seq<u8>,
    r: isize,
)
    requires
        s0.wf(),
        s0.symlink_post(s1, target, link, 0),
        s1.readlink_post(link, buf, nb, r),
    ensures
        ({
            let k = if target@.len() < buf.len() {
                target@.len() as int
            } else {
                buf.len() as int
            };
            r == k && nb.subrange(0, k) == target@.subrange(0, k)
        }),
{
    s0.lemma_wf_facts();
    let n = s0.store().next_inode_number;
    assert(s1.abs(link) == s0.abs(link));
    assert(s1.lookup(link) == Some(n));
    assert(s1.store().inode(n) == s1.store().inodes@.last());
    let k = if target@.len() < buf.len() {
        target@.len() as int
    } else {
        buf.len() as int
    };
    assert(nb.subrange(0, k) == target@.subrange(0, k));
}

/// `rename(a, b)` keeps the inode: `stat(b)` afterwards gives the inode number
/// that `stat(a)` gave before, and `a` no longer resolves unless it names the
/// same path as `b`.
pub proof fn law_rename_keeps_inode(
    s0: Proc,
    s1: Proc,
    a: Seq<u8>,
    b: Seq<u8>,
    sb0: crate::filesystem::Stat,
    st0: crate::filesystem::Stat,
    r0: i32,
    rr: i32,
    sb1: crate::filesystem::Stat,
    st1: crate::filesystem::Stat,
    r1: i32,
)
    requires
        s0.wf(),
        s0.stat_post(a, sb0, st0, r0),
        r0 == 0,
        s0.rename_post(s1, a, b, rr),
        s1.stat_post(b, sb1, st1, r1),
    ensures
        rr == 0,
        r1 == 0,
        st1.st_ino == st0.st_ino,
        s0.abs(a) != s0.abs(b) ==> s1.lookup(a) is None,
{
    s0.lemma_wf_facts();
    let n = s0.lookup(a)->Some_0;
    assert(s1.abs(b) == s0.abs(b));
    assert(s1.abs(a) == s0.abs(a));
    assert(s1.lookup(b) == Some(n));
    assert(s1.store().inode(n) == s0.store().inode(n));
}

/// After `link(a, b)` and `unlink(a)`, `stat(b)` succeeds, where `a` and `b`
/// name different paths.
pub proof fn law_link_unlink(
    s0: Proc,
    s1: Proc,
    s2: Proc,
    a: Seq<u8>,
    b: Seq<u8>,
    r2: i32,
    sb: crate::filesystem::Stat,
    st: crate::filesystem::Stat,
    r3: i32,
)
    requires
        s0.link_post(s1, a, b, 0),
        s1.unlink_post(s2, a, r2),
        s2.stat_post(b, sb, st, r3),
        s0.abs(a) != s0.abs(b),
    ensures
        r3 == 0,
{
    assert(s1.abs(a) == s0.abs(a));
    assert(s1.abs(b) == s0.abs(b));
    assert(s2.abs(b) == s0.abs(b));
    assert(s2.store().index().contains_key(s0.abs(b)));
}

/// `umask(m)` returns the mask before it, and a `mkdir(p, mode)` after it
/// gives the permissions `(mode & 0o777) & !m`.
pub proof fn law_umask_mkdir(
    s0: Proc,
    s1: Proc,
    s2: Proc,
    m: u32,
    r1: u32,
    path: Seq<u8>,
    mode: u32,
)
    requires
        s0.wf(),
        s0.umask_post(s1, m, r1),
        s1.mkdir_post(s2, path, mode, 0),
    ensures
        r1 == s0.umask_spec(),
        s2.store().inode(s1.store().next_inode_number).permissions == perms_of_mode(
            ((mode & 0o777) & !m) as u16,
        ),
{
    s0.lemma_wf_facts();
    let n = s1.store().next_inode_number;
    assert(s2.store().inode(n) == s2.store().inodes@.last());
    assert(((mode & 0o777) & !(m & 0o777)) & 0o777 == (mode & 0o777) & !m) by (bit_vector);
}

/// After `truncate(p, len)`, `stat(p)` gives the size `len`.
pub proof fn law_truncate_size(
    s0: Proc,
    s1: Proc,
    path: Seq<u8>,
    len: i64,
    sb: crate::filesystem::Stat,
    st: crate::filesystem::Stat,
    r: i32,
)
    requires
        s0.wf(),
        s0.truncate_post(s1, path, len, 0),
        s1.stat_post(path, sb, st, r),
    ensures
        r == 0,
        st.st_size == len,
{
    s0.lemma_wf_facts();
    let n = s0.lookup(path)->Some_0;
    assert(s1.abs(path) == s0.abs(path));
    assert(s1.lookup(path) == Some(n));
    assert(s1.store().inode(n).size == len as u64);
    assert(stat_of(s1.store().inode(n)).st_size == len);
}

/// After `truncate(p, len)`, reading the file at an offset at or past `len`
/// gives nothing.
pub proof fn law_read_past_truncate(
    s0: Proc,
    s1: Proc,
    path: Seq<u8>,
    len: i64,
    fd: i32,
    buf: Seq<u8>,
    offset: i64,
    nb: Seq<u8>,
    r: isize,
)
    requires
        s0.truncate_post(s1, path, len, 0),
        s1.is_open(fd),
        s1.handles()[fd].inode_number == s0.lookup(path)->Some_0,
        offset >= len,
        s1.pread_post(s1, fd, buf, offset, nb, r),
    ensures
        r == 0,
        nb == buf,
{
    let n = s0.lookup(path)->Some_0;
    assert(s1.fd_payload(fd) == resized(s0.store().payload_or_empty(n), len as nat));
}

} // verus!
