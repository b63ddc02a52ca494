use wasm_vfs::system::{
    O_APPEND, O_CREAT, O_RDONLY, O_RDWR, O_TRUNC, O_WRONLY, SEEK_CUR, SEEK_END, SEEK_SET,
};
use wasm_vfs::{Dirent, FileDef, HashMap, PathBuf, Proc, Stat};

const O_DIRECTORY: i32 = 0o200000;

fn p(s: &str) -> PathBuf {
    PathBuf::from(s)
}

fn stat_of(proc: &Proc, path: &str) -> Option<Stat> {
    let mut st = Stat::default();
    if proc.stat(&p(path), &mut st) == 0 {
        Some(st)
    } else {
        None
    }
}

fn payload_of(proc: &mut Proc, path: &str) -> Vec<u8> {
    let fd = proc.open(&p(path), O_RDONLY, 0);
    assert!(fd >= 0);
    let mut buf = vec![0u8; 4096];
    let n = proc.read(fd, &mut buf);
    assert!(n >= 0);
    proc.close(fd);
    buf.truncate(n as usize);
    buf
}

#[test]
fn test_open_happy_path() {
    let mut proc = Proc::new();
    let flags = O_CREAT | O_RDWR;
    let fd = proc.open(&p("/testfile"), flags, 0o644);
    assert!(fd >= 0, "Failed to create and open file");
    assert!(proc.fd_entry(fd).is_some());
}

#[test]
fn test_open_sad_path() {
    let mut proc = Proc::new();
    let fd = proc.open(&p("/nonexistentfile"), O_RDWR, 0o644);
    assert_eq!(fd, -1, "Opened a non-existent file without O_CREAT");
}

#[test]
fn test_close_happy_path() {
    let mut proc = Proc::new();
    let fd = proc.open(&p("/testfile"), O_CREAT | O_RDWR, 0o644);
    assert!(fd >= 0, "Failed to create and open file");
    let result = proc.close(fd);
    assert_eq!(result, 0, "Failed to close the file");
    assert!(proc.fd_entry(fd).is_none());
}

#[test]
fn test_close_sad_path() {
    let mut proc = Proc::new();
    let invalid_fd = 999;
    let result = proc.close(invalid_fd);
    assert_eq!(result, -1, "Closed an invalid file descriptor");
}

#[test]
fn test_creat_happy_path() {
    let mut proc = Proc::new();
    let fd = proc.creat(&p("/testfile"), 0o644);
    assert!(fd >= 0, "Failed to create file");
    assert!(proc.fd_entry(fd).is_some());
}

#[test]
fn test_openat_happy_path() {
    let mut proc = Proc::new();
    let dir_fd = proc.open(&p("/testdir"), O_CREAT | O_DIRECTORY, 0o755);
    assert!(dir_fd >= 0, "Failed to create and open directory");
    let file_fd = proc.open(&p("testfile"), O_CREAT | O_RDWR, 0o644);
    assert!(file_fd >= 0, "Failed to create and open file in directory");
    assert!(proc.fd_entry(file_fd).is_some());
}

#[test]
fn test_openat_sad_path() {
    let mut proc = Proc::new();
    let file_fd = proc.open(&p("testfile"), O_RDWR, 0o644);
    assert_eq!(file_fd, -1, "Opened a file in an invalid directory");
}

#[test]
fn test_dup_happy_path() {
    let mut proc = Proc::new();
    let fd = proc.open(&p("/testfile"), O_CREAT | O_RDWR, 0o644);
    assert!(fd >= 0, "Failed to create and open file");
    let new_fd = proc.dup(fd);
    assert!(new_fd >= 0, "Failed to duplicate file descriptor");
    assert_eq!(
        proc.fd_entry(fd),
        proc.fd_entry(new_fd),
        "Duplicated file descriptor does not point to the same inode"
    );
}

#[test]
fn test_dup_sad_path() {
    let mut proc = Proc::new();
    let invalid_fd = 999;
    let new_fd = proc.dup(invalid_fd);
    assert_eq!(new_fd, -1, "Duplicated an invalid file descriptor");
}

#[test]
fn test_dup2_happy_path() {
    let mut proc = Proc::new();
    let fd = proc.open(&p("/testfile"), O_CREAT | O_RDWR, 0o644);
    assert!(fd >= 0, "Failed to create and open file");
    let new_fd = 10;
    let result_fd = proc.dup2(fd, new_fd);
    assert_eq!(result_fd, new_fd, "Failed to duplicate to a specific file descriptor");
    assert_eq!(
        proc.fd_entry(fd),
        proc.fd_entry(new_fd),
        "Duplicated file descriptor does not point to the same inode"
    );
}

#[test]
fn test_dup2_sad_path() {
    let mut proc = Proc::new();
    let result_fd = proc.dup2(999, 10);
    assert_eq!(result_fd, -1, "Duplicated an invalid file descriptor");
    let fd = proc.open(&p("/testfile"), O_CREAT | O_RDWR, 0o644);
    assert!(fd >= 0, "Failed to create and open file");
    let result_fd = proc.dup2(fd, 1024);
    assert_eq!(result_fd, -1, "Duplicated to an out-of-range file descriptor");
}

// End-to-end scenarios.

#[test]
fn round_trip_through_creat_and_open() {
    let mut proc = Proc::new();
    let fd = proc.creat(&p("/a"), 0o644);
    assert!(fd >= 0);
    assert_eq!(proc.write(fd, b"hello"), 5);
    assert_eq!(proc.close(fd), 0);
    let fd2 = proc.open(&p("/a"), O_RDONLY, 0);
    assert!(fd2 >= 0);
    let mut buf = [0u8; 5];
    assert_eq!(proc.read(fd2, &mut buf), 5);
    assert_eq!(&buf, b"hello");
    assert_eq!(stat_of(&proc, "/a").unwrap().st_size, 5);
}

#[test]
fn append_handles_write_at_the_end() {
    let mut proc = Proc::new();
    let fd1 = proc.open(&p("/a"), O_WRONLY | O_APPEND | O_CREAT, 0o600);
    assert!(fd1 >= 0);
    assert_eq!(proc.write(fd1, b"AB"), 2);
    let fd2 = proc.open(&p("/a"), O_WRONLY | O_APPEND, 0);
    assert!(fd2 >= 0);
    assert_eq!(proc.write(fd2, b"CD"), 2);
    assert_eq!(proc.write(fd1, b"EF"), 2);
    assert_eq!(payload_of(&mut proc, "/a"), b"ABCDEF".to_vec());
}

#[test]
fn splice_between_files() {
    let mut proc = Proc::new();
    let src = proc.creat(&p("/src"), 0o644);
    assert_eq!(proc.write(src, b"0123456789"), 10);
    assert_eq!(proc.lseek(src, 0, SEEK_SET), 0);
    let dst = proc.creat(&p("/dst"), 0o644);
    let mut off_in = None;
    let mut off_out = None;
    assert_eq!(proc.splice(src, &mut off_in, dst, &mut off_out, 4, 0), 4);
    assert_eq!(payload_of(&mut proc, "/dst"), b"0123".to_vec());
    assert_eq!(proc.lseek(src, 0, SEEK_CUR), 4);
    assert_eq!(proc.lseek(dst, 0, SEEK_CUR), 4);
}

fn name_of(d: &Dirent) -> Vec<u8> {
    let end = d.d_name.iter().position(|b| *b == 0).unwrap();
    d.d_name[..end].to_vec()
}

#[test]
fn directory_enumeration() {
    let mut proc = Proc::new();
    assert_eq!(proc.mkdir(&p("/d"), 0o755), 0);
    assert!(proc.creat(&p("/d/x"), 0o644) >= 0);
    assert!(proc.creat(&p("/d/y"), 0o644) >= 0);
    let fd = proc.open(&p("/d"), 0, 0);
    assert!(fd >= 0);
    let mut out = Vec::new();
    let r = proc.getdents(fd, 4096, &mut out);
    assert_eq!(r, 2 * 280);
    assert_eq!(out.len(), 2);
    let mut names: Vec<Vec<u8>> = out.iter().map(name_of).collect();
    names.sort();
    assert_eq!(names, vec![b"x".to_vec(), b"y".to_vec()]);
    assert!(out.iter().all(|d| d.d_type == 8));
    assert_eq!(out[0].d_off, 1);
    assert_eq!(out[1].d_off, 2);
    assert_eq!(out[0].d_reclen, 280);
    let mut more = Vec::new();
    assert_eq!(proc.getdents(fd, 4096, &mut more), 0);
    assert!(more.is_empty());
}

#[test]
fn rename_preserves_inode() {
    let mut proc = Proc::new();
    let fd = proc.creat(&p("/a"), 0o644);
    assert_eq!(proc.write(fd, b"Z"), 1);
    let ino1 = stat_of(&proc, "/a").unwrap().st_ino;
    assert_eq!(proc.rename(&p("/a"), &p("/b")), 0);
    let ino2 = stat_of(&proc, "/b").unwrap().st_ino;
    assert_eq!(ino1, ino2);
    assert!(stat_of(&proc, "/a").is_none());
}

#[test]
fn rmdir_of_non_empty_directory_fails() {
    let mut proc = Proc::new();
    assert_eq!(proc.mkdir(&p("/d"), 0o755), 0);
    assert!(proc.creat(&p("/d/f"), 0o644) >= 0);
    assert_eq!(proc.rmdir(&p("/d")), -1);
    assert!(stat_of(&proc, "/d").is_some());
    assert!(stat_of(&proc, "/d/f").is_some());
}

// Laws on concrete values.

#[test]
fn every_name_and_descriptor_resolves() {
    let mut proc = Proc::new();
    let fd = proc.creat(&p("/f"), 0o644);
    assert_eq!(proc.mkdir(&p("/g"), 0o755), 0);
    let n = proc.fd_entry(fd).unwrap();
    assert!((n as usize) < proc.fs.inodes.len());
    for path in ["/", "/f", "/g"] {
        let ino = proc.fs.lookup_inode_by_path(&p(path)).unwrap();
        assert!((ino as usize) < proc.fs.inodes.len());
    }
}

#[test]
fn write_seek_back_read_gives_data() {
    let mut proc = Proc::new();
    let fd = proc.open(&p("/f"), O_CREAT | O_RDWR, 0o644);
    assert_eq!(proc.write(fd, b"abc"), 3);
    assert_eq!(proc.write(fd, b"defg"), 4);
    assert_eq!(proc.lseek(fd, -4, SEEK_CUR), 3);
    let mut buf = [0u8; 4];
    assert_eq!(proc.read(fd, &mut buf), 4);
    assert_eq!(&buf, b"defg");
}

#[test]
fn pwrite_keeps_the_position() {
    let mut proc = Proc::new();
    let fd = proc.open(&p("/f"), O_CREAT | O_RDWR, 0o644);
    assert_eq!(proc.write(fd, b"12345"), 5);
    assert_eq!(proc.lseek(fd, 2, SEEK_SET), 2);
    assert_eq!(proc.pwrite64(fd, b"zz", 8), 2);
    assert_eq!(proc.lseek(fd, 0, SEEK_CUR), 2);
    let mut buf = [9u8; 10];
    assert_eq!(proc.pread64(fd, &mut buf, 0), 10);
    assert_eq!(&buf, b"12345\0\0\0zz");
    assert_eq!(stat_of(&proc, "/f").unwrap().st_size, 10);
}

#[test]
fn append_writes_ignore_seeks() {
    let mut proc = Proc::new();
    let fd = proc.open(&p("/f"), O_CREAT | O_RDWR | O_APPEND, 0o644);
    assert_eq!(proc.write(fd, b"one"), 3);
    assert_eq!(proc.lseek(fd, 0, SEEK_SET), 0);
    assert_eq!(proc.write(fd, b"two"), 3);
    assert_eq!(payload_of(&mut proc, "/f"), b"onetwo".to_vec());
}

#[test]
fn dup_positions_move_independently() {
    let mut proc = Proc::new();
    let fd = proc.open(&p("/f"), O_CREAT | O_RDWR, 0o644);
    assert_eq!(proc.write(fd, b"abcdef"), 6);
    assert_eq!(proc.lseek(fd, 1, SEEK_SET), 1);
    let fd2 = proc.dup(fd);
    assert!(fd2 >= 0 && fd2 != fd);
    let mut buf = [0u8; 2];
    assert_eq!(proc.read(fd, &mut buf), 2);
    assert_eq!(&buf, b"bc");
    assert_eq!(proc.lseek(fd2, 0, SEEK_CUR), 1);
    assert_eq!(proc.read(fd2, &mut buf), 2);
    assert_eq!(&buf, b"bc");
    assert_eq!(proc.lseek(fd, 0, SEEK_CUR), 3);
}

#[test]
fn mkdir_then_rmdir_restores_the_index() {
    let mut proc = Proc::new();
    assert_eq!(proc.mkdir(&p("/p"), 0o755), 0);
    assert!(stat_of(&proc, "/p").is_some());
    assert_eq!(proc.rmdir(&p("/p")), 0);
    assert!(stat_of(&proc, "/p").is_none());
    assert_eq!(proc.mkdir(&p("/p"), 0o755), 0);
    assert_eq!(proc.mkdir(&p("/p/c"), 0o755), 0);
    assert_eq!(proc.rmdir(&p("/p")), -1);
    assert_eq!(proc.mkdir(&p("/p"), 0o755), -1);
}

#[test]
fn readlink_gives_back_the_target() {
    let mut proc = Proc::new();
    assert_eq!(proc.symlink(p("/some/target"), &p("/l")), 0);
    let mut buf = [0u8; 64];
    assert_eq!(proc.readlink(&p("/l"), &mut buf), 12);
    assert_eq!(&buf[..12], b"/some/target");
    let mut small = [0u8; 5];
    assert_eq!(proc.readlink(&p("/l"), &mut small), 5);
    assert_eq!(&small, b"/some");
    assert!(proc.creat(&p("/f"), 0o644) >= 0);
    assert_eq!(proc.readlink(&p("/f"), &mut buf), -1);
    assert_eq!(proc.readlink(&p("/missing"), &mut buf), -1);
    assert_eq!(stat_of(&proc, "/l").unwrap().st_mode & 0o170000, 0o120000);
}

#[test]
fn link_then_unlink_keeps_the_other_name() {
    let mut proc = Proc::new();
    let fd = proc.creat(&p("/a"), 0o644);
    assert_eq!(proc.write(fd, b"data"), 4);
    assert_eq!(proc.link(&p("/a"), &p("/b")), 0);
    assert_eq!(proc.unlink(&p("/a")), 0);
    let st = stat_of(&proc, "/b").unwrap();
    assert_eq!(st.st_size, 4);
    assert!(stat_of(&proc, "/a").is_none());
    assert_eq!(proc.mkdir(&p("/d"), 0o755), 0);
    assert_eq!(proc.unlink(&p("/d")), -1);
    assert_eq!(proc.unlink(&p("/nothing")), -1);
}

#[test]
fn file_sizes_follow_payloads() {
    let mut proc = Proc::new();
    let fd = proc.open(&p("/f"), O_CREAT | O_RDWR, 0o644);
    assert_eq!(proc.pwrite64(fd, b"x", 99), 1);
    assert_eq!(stat_of(&proc, "/f").unwrap().st_size, 100);
    assert_eq!(stat_of(&proc, "/f").unwrap().st_blocks, 1);
    assert_eq!(proc.ftruncate(fd, 513), 0);
    assert_eq!(stat_of(&proc, "/f").unwrap().st_blocks, 2);
    assert_eq!(proc.fallocate(fd, 0, 1000, 24), 0);
    assert_eq!(stat_of(&proc, "/f").unwrap().st_size, 1024);
    assert_eq!(proc.fallocate(fd, 0, 0, 10), 0);
    assert_eq!(stat_of(&proc, "/f").unwrap().st_size, 1024);
    assert_eq!(proc.fallocate(fd, 0, -1, 10), -1);
}

#[test]
fn umask_shapes_new_directories() {
    let mut proc = Proc::new();
    assert_eq!(proc.umask(0o027), 0o022);
    assert_eq!(proc.umask(0o077), 0o027);
    assert_eq!(proc.mkdir(&p("/d"), 0o775), 0);
    assert_eq!(stat_of(&proc, "/d").unwrap().st_mode, 0o040000 | 0o700);
    assert_eq!(proc.umask(0o7777), 0o077);
    assert_eq!(proc.umask(0), 0o777);
}

#[test]
fn truncate_sets_the_size() {
    let mut proc = Proc::new();
    let fd = proc.open(&p("/f"), O_CREAT | O_RDWR, 0o644);
    assert_eq!(proc.write(fd, b"0123456789"), 10);
    assert_eq!(proc.truncate(&p("/f"), 4), 0);
    assert_eq!(stat_of(&proc, "/f").unwrap().st_size, 4);
    let mut buf = [7u8; 3];
    assert_eq!(proc.pread64(fd, &mut buf, 4), 0);
    assert_eq!(proc.pread64(fd, &mut buf, 6), 0);
    assert_eq!(&buf, &[7u8; 3]);
    assert_eq!(proc.read(fd, &mut buf), 0);
    assert_eq!(proc.truncate(&p("/f"), 6), 0);
    assert_eq!(proc.pread64(fd, &mut buf, 3), 3);
    assert_eq!(&buf, &[b'3', 0, 0]);
    assert_eq!(proc.truncate(&p("/f"), -1), -1);
    assert_eq!(proc.truncate(&p("/nothing"), 1), -1);
}

// Edge cases and errors.

#[test]
fn descriptors_start_at_three_and_run_out() {
    let mut proc = Proc::new();
    let first = proc.creat(&p("/f"), 0o644);
    assert_eq!(first, 3);
    let mut last = first;
    for _ in 4..1024 {
        last = proc.open(&p("/f"), O_RDONLY, 0);
        assert!(last >= 0);
    }
    assert_eq!(last, 1023);
    assert_eq!(proc.open(&p("/f"), O_RDONLY, 0), -1);
    assert_eq!(proc.dup(first), -1);
    assert_eq!(proc.close(5), 0);
    assert_eq!(proc.open(&p("/f"), O_RDONLY, 0), 5);
}

#[test]
fn open_truncates_and_appends() {
    let mut proc = Proc::new();
    let fd = proc.open(&p("/f"), O_CREAT | O_RDWR, 0o644);
    assert_eq!(proc.write(fd, b"hello"), 5);
    let fa = proc.open(&p("/f"), O_RDWR | O_APPEND, 0);
    assert_eq!(proc.lseek(fa, 0, SEEK_CUR), 5);
    let ft = proc.open(&p("/f"), O_RDWR | O_TRUNC, 0);
    assert!(ft >= 0);
    assert_eq!(stat_of(&proc, "/f").unwrap().st_size, 0);
    assert_eq!(proc.lseek(fd, 0, SEEK_END), 0);
}

#[test]
fn lseek_rejects_bad_requests() {
    let mut proc = Proc::new();
    let fd = proc.open(&p("/f"), O_CREAT | O_RDWR, 0o644);
    assert_eq!(proc.write(fd, b"abc"), 3);
    assert_eq!(proc.lseek(fd, -4, SEEK_CUR), -1);
    assert_eq!(proc.lseek(fd, 0, 7), -1);
    assert_eq!(proc.lseek(fd, 10, SEEK_END), 13);
    assert_eq!(proc.lseek(42, 0, SEEK_SET), -1);
    let mut buf = [0u8; 4];
    assert_eq!(proc.read(fd, &mut buf), 0);
    assert_eq!(proc.write(fd, b"!"), 1);
    assert_eq!(stat_of(&proc, "/f").unwrap().st_size, 14);
}

#[test]
fn io_on_closed_descriptors_fails() {
    let mut proc = Proc::new();
    let mut buf = [0u8; 4];
    assert_eq!(proc.read(7, &mut buf), -1);
    assert_eq!(proc.write(7, b"x"), -1);
    assert_eq!(proc.pread64(7, &mut buf, 0), -1);
    assert_eq!(proc.pwrite64(7, b"x", 0), -1);
    assert_eq!(proc.fchmod(7, 0o600), -1);
    assert_eq!(proc.ftruncate(7, 0), -1);
    let mut st = Stat::default();
    assert_eq!(proc.fstat(7, &mut st), -1);
    let fd = proc.creat(&p("/f"), 0o644);
    assert_eq!(proc.pwrite64(fd, b"x", -1), -1);
    assert_eq!(proc.pread64(fd, &mut buf, -1), -1);
}

#[test]
fn stdout_writes_are_queued_as_lines() {
    let mut proc = Proc::new();
    assert_eq!(proc.write(1, b"ab"), 2);
    assert!(proc.take_stdout_lines().is_empty());
    assert_eq!(proc.write(1, b"c\nde\nf"), 6);
    let lines = proc.take_stdout_lines();
    assert_eq!(lines, vec![b"abc\n".to_vec(), b"de\n".to_vec()]);
    assert_eq!(proc.write(1, b"\n"), 1);
    assert_eq!(proc.take_stdout_lines(), vec![b"f\n".to_vec()]);
}

#[test]
fn sendfile_with_an_input_offset() {
    let mut proc = Proc::new();
    let src = proc.creat(&p("/s"), 0o644);
    assert_eq!(proc.write(src, b"abcdef"), 6);
    let dst = proc.open(&p("/d"), O_CREAT | O_RDWR | O_APPEND, 0o644);
    assert_eq!(proc.write(dst, b">"), 1);
    let mut off = Some(2);
    assert_eq!(proc.sendfile(dst, src, &mut off, 100), 4);
    assert_eq!(off, Some(6));
    assert_eq!(proc.lseek(src, 0, SEEK_CUR), 6);
    assert_eq!(payload_of(&mut proc, "/d"), b">cdef".to_vec());
    assert_eq!(proc.sendfile(dst, src, &mut off, 100), 0);
    let mut neg = Some(-1);
    assert_eq!(proc.sendfile(dst, src, &mut neg, 1), -1);
    assert_eq!(proc.sendfile(dst, 99, &mut None, 1), -1);
}

#[test]
fn splice_with_an_output_offset() {
    let mut proc = Proc::new();
    let src = proc.creat(&p("/s"), 0o644);
    assert_eq!(proc.write(src, b"xyz"), 3);
    assert_eq!(proc.lseek(src, 0, SEEK_SET), 0);
    let dst = proc.creat(&p("/d"), 0o644);
    let mut off_in = None;
    let mut off_out = Some(2);
    assert_eq!(proc.splice(src, &mut off_in, dst, &mut off_out, 3, 0), 3);
    assert_eq!(off_out, Some(5));
    assert_eq!(proc.lseek(dst, 0, SEEK_CUR), 0);
    assert_eq!(proc.lseek(src, 0, SEEK_CUR), 3);
    assert_eq!(payload_of(&mut proc, "/d"), b"\0\0xyz".to_vec());
}

#[test]
fn stat_fields() {
    let mut proc = Proc::new();
    let fd = proc.creat(&p("/f"), 0o640);
    assert_eq!(proc.write(fd, &[1u8; 1025]), 1025);
    let st = stat_of(&proc, "f").unwrap();
    assert_eq!(st.st_mode, 0o100640);
    assert_eq!(st.st_nlink, 1);
    assert_eq!(st.st_blksize, 4096);
    assert_eq!(st.st_blocks, 3);
    assert_eq!(st.st_dev, 0);
    let mut fst = Stat::default();
    assert_eq!(proc.fstat(fd, &mut fst), 0);
    assert_eq!(fst, st);
    let root = stat_of(&proc, "/").unwrap();
    assert_eq!(root.st_ino, 0);
    assert_eq!(root.st_mode, 0o040000);
}

#[test]
fn chmod_chown_and_access() {
    let mut proc = Proc::new();
    assert!(proc.creat(&p("/f"), 0o644) >= 0);
    assert_eq!(proc.access(&p("/f"), 4 | 2), 0);
    assert_eq!(proc.access(&p("/f"), 1), -1);
    assert_eq!(proc.chmod(&p("/f"), 0o7500), 0);
    assert_eq!(stat_of(&proc, "/f").unwrap().st_mode, 0o100500);
    assert_eq!(proc.access(&p("/f"), 4 | 1), 0);
    assert_eq!(proc.access(&p("/f"), 2), -1);
    assert_eq!(proc.access(&p("/missing"), 0), -1);
    assert_eq!(proc.chown(&p("/f"), 7, 8), 0);
    let st = stat_of(&proc, "/f").unwrap();
    assert_eq!((st.st_uid, st.st_gid), (7, 8));
    let fd = proc.open(&p("/f"), O_RDONLY, 0);
    assert_eq!(proc.fchown(fd, 1, 2), 0);
    assert_eq!(proc.fchmod(fd, 0o600), 0);
    let st = stat_of(&proc, "/f").unwrap();
    assert_eq!((st.st_uid, st.st_gid, st.st_mode), (1, 2, 0o100600));
    assert_eq!(proc.chmod(&p("/missing"), 0o600), -1);
}

#[test]
fn working_directory_resolves_relative_paths() {
    let mut proc = Proc::new();
    let mut buf = [0xffu8; 8];
    assert_eq!(proc.getcwd(&mut buf), 0);
    assert_eq!(&buf[..2], b"/\0");
    assert_eq!(proc.mkdir(&p("/d"), 0o755), 0);
    assert_eq!(proc.chdir(&p("d")), 0);
    assert!(proc.creat(&p("x"), 0o644) >= 0);
    assert!(stat_of(&proc, "/d/x").is_some());
    assert_eq!(proc.getcwd(&mut buf), 0);
    assert_eq!(&buf[..3], b"/d\0");
    let mut tiny = [0u8; 2];
    assert_eq!(proc.getcwd(&mut tiny), -1);
    assert_eq!(proc.chdir(&p("/d/x")), -1);
    assert_eq!(proc.chdir(&p("/nowhere")), -1);
    let root = proc.open(&p("/"), O_RDONLY, 0);
    assert_eq!(proc.fchdir(root), 0);
    assert_eq!(proc.getcwd(&mut buf), 0);
    assert_eq!(&buf[..2], b"/\0");
}

#[test]
fn mount_places_files() {
    let mut proc = Proc::new();
    let files = vec![
        FileDef { dest_path: p("/m1"), data: b"first".to_vec() },
        FileDef { dest_path: p("/m2"), data: Vec::new() },
    ];
    assert_eq!(proc.mount_in_memory(&files), 0);
    assert_eq!(payload_of(&mut proc, "/m1"), b"first".to_vec());
    assert_eq!(stat_of(&proc, "/m2").unwrap().st_size, 0);
}

#[test]
fn path_operations() {
    assert!(p("/a").is_absolute());
    assert!(!p("a").is_absolute());
    assert_eq!(p("/a").join(&p("b")).as_bytes(), b"/a/b");
    assert_eq!(p("/a/").join(&p("b")).as_bytes(), b"/a/b");
    assert_eq!(p("").join(&p("b")).as_bytes(), b"b");
    assert_eq!(p("/a").join(&p("/c")).as_bytes(), b"/c");
    assert_eq!(p("/a/b/").parent().unwrap().as_bytes(), b"/a");
    assert_eq!(p("/a").parent().unwrap().as_bytes(), b"/");
    assert!(p("/").parent().is_none());
    assert!(p("a").parent().is_none());
    assert_eq!(p("/a/bc//").file_name().unwrap(), b"bc".to_vec());
    assert_eq!(p("name").file_name().unwrap(), b"name".to_vec());
    assert!(p("").file_name().is_none());
    assert_eq!(p("/x/y").to_string_lossy(), "/x/y");
    assert_eq!(PathBuf::from_bytes(b"a\xffb").to_string_lossy(), "a\u{fffd}b");
    assert_eq!(PathBuf::new().as_bytes(), b"");
}

#[test]
fn table_operations() {
    let mut m: HashMap<u64, u64, 2> = HashMap::new();
    assert!(m.get(&1).is_none());
    m.insert(1, 10);
    m.insert(2, 20);
    m.insert(3, 30);
    m.insert(2, 21);
    assert_eq!(m.get(&2), Some(&21));
    assert_eq!(m.iter().len(), 3);
    assert_eq!(m.remove(&1), Some(10));
    assert_eq!(m.remove(&1), None);
    m.insert(4, 40);
    assert_eq!(m.iter().len(), 3);
    if let Some(v) = m.get_mut(&4) {
        *v = 44;
    }
    assert_eq!(m.get(&4), Some(&44));
    assert!(m.contains_key(&3));
    m.clear();
    assert!(!m.contains_key(&3));
    assert_eq!(m.iter().len(), 0);
}

#[test]
fn getdents_one_record_at_a_time() {
    let mut proc = Proc::new();
    assert_eq!(proc.mkdir(&p("/d"), 0o755), 0);
    assert!(proc.creat(&p("/d/a"), 0o644) >= 0);
    assert_eq!(proc.mkdir(&p("/d/sub"), 0o755), 0);
    assert_eq!(proc.symlink(p("/d/a"), &p("/d/ln")), 0);
    assert!(proc.creat(&p("/d/sub/deep"), 0o644) >= 0);
    let fd = proc.open(&p("/d"), O_RDONLY, 0);
    let mut out = Vec::new();
    assert_eq!(proc.getdents(fd, 279, &mut out), 0);
    assert!(out.is_empty());
    let mut seen = Vec::new();
    loop {
        let mut one = Vec::new();
        let r = proc.getdents(fd, 280, &mut one);
        if r == 0 {
            break;
        }
        assert_eq!(r, 280);
        assert_eq!(one.len(), 1);
        assert_eq!(one[0].d_off, seen.len() as i64 + 1);
        seen.push((name_of(&one[0]), one[0].d_type));
    }
    seen.sort();
    assert_eq!(
        seen,
        vec![(b"a".to_vec(), 8), (b"ln".to_vec(), 10), (b"sub".to_vec(), 4)]
    );
    let f = proc.open(&p("/d/a"), O_RDONLY, 0);
    assert_eq!(proc.getdents(f, 4096, &mut out), -1);
    assert_eq!(proc.getdents(99, 4096, &mut out), -1);
}

#[test]
fn getdents_skips_long_names() {
    let mut proc = Proc::new();
    assert_eq!(proc.mkdir(&p("/d"), 0o755), 0);
    let long = format!("/d/{}", "n".repeat(256));
    assert!(proc.creat(&p(&long), 0o644) >= 0);
    let fits = format!("/d/{}", "m".repeat(255));
    assert!(proc.creat(&p(&fits), 0o644) >= 0);
    let fd = proc.open(&p("/d"), O_RDONLY, 0);
    let mut out = Vec::new();
    assert_eq!(proc.getdents(fd, 4096, &mut out), 280);
    assert_eq!(out.len(), 1);
    assert_eq!(name_of(&out[0]), vec![b'm'; 255]);
}

#[test]
fn root_listing_and_rmdir_of_files() {
    let mut proc = Proc::new();
    assert!(proc.creat(&p("/top"), 0o644) >= 0);
    assert_eq!(proc.rmdir(&p("/top")), -1);
    assert_eq!(proc.rmdir(&p("/none")), -1);
    let fd = proc.open(&p("/"), O_RDONLY, 0);
    let mut out = Vec::new();
    assert_eq!(proc.getdents(fd, 4096, &mut out), 280);
    assert_eq!(name_of(&out[0]), b"top".to_vec());
}

#[test]
fn getdents_after_a_long_name_lists_each_entry_once() {
    let mut proc = Proc::new();
    assert_eq!(proc.mkdir(&p("/d"), 0o755), 0);
    let long = format!("/d/{}", "n".repeat(300));
    assert!(proc.creat(&p(&long), 0o644) >= 0);
    assert!(proc.creat(&p("/d/x"), 0o644) >= 0);
    let fd = proc.open(&p("/d"), O_RDONLY, 0);
    let mut one = Vec::new();
    assert_eq!(proc.getdents(fd, 280, &mut one), 280);
    assert_eq!(name_of(&one[0]), b"x".to_vec());
    assert_eq!(one[0].d_off, 1);
    let mut next = Vec::new();
    assert_eq!(proc.getdents(fd, 280, &mut next), 0);
    assert!(next.is_empty());
}

#[test]
fn new_process_state() {
    let proc = Proc::new();
    assert_eq!(proc.fs.next_inode_number, 1);
    assert_eq!(proc.fs.inodes.len(), 1);
    assert_eq!(proc.fs.lookup_inode_by_path(&p("/")), Some(0));
    for fd in 0..1024 {
        assert!(proc.fd_entry(fd).is_none());
    }
}
