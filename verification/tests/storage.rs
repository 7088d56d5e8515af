use storage_env::access::{FsError, Permission, SeekFrom};
use storage_env::storage::Storage;

fn write_all(s: &mut Storage, stream: usize, bytes: &[u8]) -> usize {
    s.write(stream, bytes).expect("write failed")
}

#[test]
fn create_then_open_reports_written_size() {
    let mut s = Storage::new();
    let h = s.create(b"seg").unwrap();
    let w = s.new_writer(h).unwrap();
    assert_eq!(write_all(&mut s, w, &[7, 8, 9, 10]), 4);
    let h2 = s.open(b"seg", Permission::ReadOnly).unwrap();
    assert_eq!(s.file_size(h2), Ok(4));
}

#[test]
fn create_is_open_or_create() {
    let mut s = Storage::new();
    let h = s.create(b"seg").unwrap();
    let w = s.new_writer(h).unwrap();
    write_all(&mut s, w, &[1, 2, 3]);
    // A second create must keep the existing content, not replace it.
    let h2 = s.create(b"seg").unwrap();
    assert_eq!(s.file_size(h2), Ok(3));
    let r = s.new_reader(h2).unwrap();
    assert_eq!(s.read(r, 8), Ok(vec![1, 2, 3]));
}

#[test]
fn open_missing_is_not_found() {
    let mut s = Storage::new();
    assert_eq!(s.open(b"absent", Permission::ReadWrite), Err(FsError::NotFound));
    assert_eq!(s.open(b"absent", Permission::ReadOnly), Err(FsError::NotFound));
}

#[test]
fn truncate_shrink_keep_extend() {
    let mut s = Storage::new();
    let h = s.create(b"f").unwrap();
    let w = s.new_writer(h).unwrap();
    write_all(&mut s, w, &[1, 2, 3, 4, 5]);
    // Shrink below the prior size.
    assert_eq!(s.truncate(h, 2), Ok(()));
    assert_eq!(s.file_size(h), Ok(2));
    // Truncate to exactly the current size.
    assert_eq!(s.truncate(h, 2), Ok(()));
    assert_eq!(s.file_size(h), Ok(2));
    // Extend past the prior size: zero-filled padding.
    assert_eq!(s.truncate(h, 5), Ok(()));
    assert_eq!(s.file_size(h), Ok(5));
    let r = s.new_reader(h).unwrap();
    s.seek(r, SeekFrom::Start(0)).unwrap();
    assert_eq!(s.read(r, 5), Ok(vec![1, 2, 0, 0, 0]));
}

#[test]
fn truncate_readonly_is_permission_denied() {
    let mut s = Storage::new();
    let h = s.create(b"f").unwrap();
    let ro = s.open(b"f", Permission::ReadOnly).unwrap();
    assert_eq!(s.truncate(ro, 1), Err(FsError::PermissionDenied));
    assert_eq!(s.file_size(h), Ok(0));
}

#[test]
fn streams_share_one_position() {
    let mut s = Storage::new();
    let h = s.create(b"f").unwrap();
    let a = s.new_writer(h).unwrap();
    let b = s.new_reader(h).unwrap();
    write_all(&mut s, a, &[1, 2, 3, 4]);
    s.seek(a, SeekFrom::Start(1)).unwrap();
    // b never seeks: it reads from where a put the shared cursor.
    assert_eq!(s.read(b, 2), Ok(vec![2, 3]));
    // And a in turn continues from where b stopped.
    assert_eq!(s.read(a, 2), Ok(vec![4]));
}

#[test]
fn write_then_read_without_seek_continues_at_end() {
    let mut s = Storage::new();
    let h = s.create(b"f").unwrap();
    let a = s.new_writer(h).unwrap();
    let b = s.new_reader(h).unwrap();
    write_all(&mut s, a, &[9, 9]);
    // The shared position sits at the end of the write, so b sees EOF.
    assert_eq!(s.read(b, 4), Ok(vec![]));
}

#[test]
fn delete_missing_is_not_found() {
    let mut s = Storage::new();
    assert_eq!(s.delete(b"ghost"), Err(FsError::NotFound));
}

#[test]
fn delete_then_open_is_not_found() {
    let mut s = Storage::new();
    s.create(b"f").unwrap();
    assert_eq!(s.delete(b"f"), Ok(()));
    assert_eq!(s.open(b"f", Permission::ReadOnly), Err(FsError::NotFound));
}

#[test]
fn delete_keeps_open_descriptors_working() {
    let mut s = Storage::new();
    let h = s.create(b"f").unwrap();
    let w = s.new_writer(h).unwrap();
    write_all(&mut s, w, &[5, 6]);
    assert_eq!(s.delete(b"f"), Ok(()));
    // The descriptor still reaches the unbound file.
    assert_eq!(s.file_size(h), Ok(2));
}

#[test]
fn rename_redirects_binding() {
    let mut s = Storage::new();
    let h = s.create(b"a").unwrap();
    let w = s.new_writer(h).unwrap();
    write_all(&mut s, w, &[42]);
    assert_eq!(s.rename(b"a", b"b"), Ok(()));
    let hb = s.open(b"b", Permission::ReadOnly).unwrap();
    assert_eq!(s.file_size(hb), Ok(1));
    assert_eq!(s.open(b"a", Permission::ReadOnly), Err(FsError::NotFound));
}

#[test]
fn rename_missing_is_not_found() {
    let mut s = Storage::new();
    assert_eq!(s.rename(b"a", b"b"), Err(FsError::NotFound));
}

#[test]
fn rename_overwrites_existing_destination() {
    let mut s = Storage::new();
    let ha = s.create(b"a").unwrap();
    let wa = s.new_writer(ha).unwrap();
    write_all(&mut s, wa, &[1, 1, 1]);
    s.create(b"b").unwrap();
    assert_eq!(s.rename(b"a", b"b"), Ok(()));
    let hb = s.open(b"b", Permission::ReadOnly).unwrap();
    assert_eq!(s.file_size(hb), Ok(3));
    assert_eq!(s.open(b"a", Permission::ReadOnly), Err(FsError::NotFound));
}

#[test]
fn rename_onto_itself_keeps_the_binding() {
    let mut s = Storage::new();
    s.create(b"a").unwrap();
    assert_eq!(s.rename(b"a", b"a"), Ok(()));
    assert!(s.open(b"a", Permission::ReadOnly).is_ok());
}

#[test]
fn allocate_changes_nothing_observable() {
    let mut s = Storage::new();
    let h = s.create(b"f").unwrap();
    let w = s.new_writer(h).unwrap();
    write_all(&mut s, w, &[3, 1, 4]);
    assert_eq!(s.allocate(h, 0, 1024), Ok(()));
    assert_eq!(s.stream_allocate(w, 100, 4096), Ok(()));
    assert_eq!(s.file_size(h), Ok(3));
    // A read immediately after allocate returns the same bytes as before.
    s.seek(w, SeekFrom::Start(0)).unwrap();
    assert_eq!(s.read(w, 3), Ok(vec![3, 1, 4]));
}

#[test]
fn log_segment_write_sync_read_back() {
    let mut s = Storage::new();
    let h = s.create(b"log.1").unwrap();
    let w = s.new_writer(h).unwrap();
    s.seek(w, SeekFrom::Start(0)).unwrap();
    assert_eq!(write_all(&mut s, w, &[0x01, 0x02, 0x03]), 3);
    assert_eq!(s.sync(h), Ok(()));
    let r = s.new_reader(h).unwrap();
    s.seek(r, SeekFrom::Start(0)).unwrap();
    assert_eq!(s.read(r, 3), Ok(vec![0x01, 0x02, 0x03]));
}

#[test]
fn log_segment_truncate_keeps_prefix() {
    let mut s = Storage::new();
    let h = s.create(b"log.2").unwrap();
    let w = s.new_writer(h).unwrap();
    assert_eq!(write_all(&mut s, w, &[10, 11, 12, 13, 14, 15, 16, 17, 18, 19]), 10);
    assert_eq!(s.truncate(h, 4), Ok(()));
    assert_eq!(s.file_size(h), Ok(4));
    let r = s.new_reader(h).unwrap();
    s.seek(r, SeekFrom::Start(0)).unwrap();
    assert_eq!(s.read(r, 10), Ok(vec![10, 11, 12, 13]));
}

#[test]
fn seek_forms_and_bad_target() {
    let mut s = Storage::new();
    let h = s.create(b"f").unwrap();
    let w = s.new_writer(h).unwrap();
    write_all(&mut s, w, &[1, 2, 3, 4, 5, 6]);
    assert_eq!(s.seek(w, SeekFrom::Start(2)), Ok(2));
    assert_eq!(s.seek(w, SeekFrom::Current(3)), Ok(5));
    assert_eq!(s.seek(w, SeekFrom::Current(-4)), Ok(1));
    assert_eq!(s.seek(w, SeekFrom::End(-2)), Ok(4));
    assert_eq!(s.seek(w, SeekFrom::End(0)), Ok(6));
    // A negative absolute target is refused and the position is kept.
    assert_eq!(s.seek(w, SeekFrom::Current(-20)), Err(FsError::InvalidArgument));
    assert_eq!(s.read(w, 6), Ok(vec![]));
    assert_eq!(s.seek(w, SeekFrom::End(-7)), Err(FsError::InvalidArgument));
}

#[test]
fn seek_past_end_reads_nothing_and_write_pads() {
    let mut s = Storage::new();
    let h = s.create(b"f").unwrap();
    let w = s.new_writer(h).unwrap();
    write_all(&mut s, w, &[1]);
    assert_eq!(s.seek(w, SeekFrom::Start(3)), Ok(3));
    assert_eq!(s.read(w, 4), Ok(vec![]));
    // Writing past the end zero-fills the gap.
    write_all(&mut s, w, &[9]);
    assert_eq!(s.file_size(h), Ok(4));
    s.seek(w, SeekFrom::Start(0)).unwrap();
    assert_eq!(s.read(w, 4), Ok(vec![1, 0, 0, 9]));
}

#[test]
fn write_readonly_is_permission_denied() {
    let mut s = Storage::new();
    s.create(b"f").unwrap();
    let ro = s.open(b"f", Permission::ReadOnly).unwrap();
    let st = s.new_writer(ro).unwrap();
    assert_eq!(s.write(st, &[1]), Err(FsError::PermissionDenied));
    assert_eq!(s.stream_truncate(st, 0), Err(FsError::PermissionDenied));
}

#[test]
fn write_overlapping_keeps_tail() {
    let mut s = Storage::new();
    let h = s.create(b"f").unwrap();
    let w = s.new_writer(h).unwrap();
    write_all(&mut s, w, &[1, 2, 3, 4, 5]);
    s.seek(w, SeekFrom::Start(1)).unwrap();
    write_all(&mut s, w, &[8, 9]);
    assert_eq!(s.file_size(h), Ok(5));
    s.seek(w, SeekFrom::Start(0)).unwrap();
    assert_eq!(s.read(w, 5), Ok(vec![1, 8, 9, 4, 5]));
}

#[test]
fn stream_truncate_resizes_through_the_shared_descriptor() {
    let mut s = Storage::new();
    let h = s.create(b"f").unwrap();
    let w = s.new_writer(h).unwrap();
    write_all(&mut s, w, &[1, 2, 3, 4]);
    assert_eq!(s.stream_truncate(w, 1), Ok(()));
    // The resize is visible through the handle and every other stream.
    assert_eq!(s.file_size(h), Ok(1));
    let r = s.new_reader(h).unwrap();
    s.seek(r, SeekFrom::Start(0)).unwrap();
    assert_eq!(s.read(r, 4), Ok(vec![1]));
}

#[test]
fn flush_is_a_pass_through() {
    let mut s = Storage::new();
    let h = s.create(b"f").unwrap();
    let w = s.new_writer(h).unwrap();
    write_all(&mut s, w, &[1]);
    assert_eq!(s.flush(w), Ok(()));
    assert_eq!(s.file_size(h), Ok(1));
}

#[test]
fn permission_grants_write() {
    assert!(Permission::ReadWrite.grants_write());
    assert!(!Permission::ReadOnly.grants_write());
}

#[test]
fn empty_path_is_a_path_like_any_other() {
    let mut s = Storage::new();
    let h = s.create(b"").unwrap();
    assert_eq!(s.file_size(h), Ok(0));
    assert!(s.open(b"", Permission::ReadOnly).is_ok());
    assert_eq!(s.delete(b""), Ok(()));
    assert_eq!(s.open(b"", Permission::ReadOnly), Err(FsError::NotFound));
}
