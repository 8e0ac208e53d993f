use qinhuai::storage::vfs::MemoryFileSystem;
use qinhuai::storage::StorageError;

#[test]
fn test_memory_filesystem_open_create() {
    let mut fs = MemoryFileSystem::default();
    let file = fs.open("file").unwrap();
    assert_eq!(file.size(&fs).unwrap(), 0);
}

#[test]
fn test_memory_filesystem_open_existing() {
    let mut fs = MemoryFileSystem::default();
    let file = fs.open("file").unwrap();
    file.write(&mut fs, 0, b"hello").unwrap();

    let file = fs.open("file").unwrap();
    assert_eq!(file.size(&fs).unwrap(), 5);

    let mut buf = vec![0; 5];
    file.read(&fs, 0, &mut buf).unwrap();
    assert_eq!(&buf, b"hello");
}

#[test]
fn test_memory_filesystem_delete() {
    let mut fs = MemoryFileSystem::default();
    fs.open("file").unwrap();
    fs.delete("file").unwrap();
}

#[test]
fn test_memory_filesystem_delete_nonexistent() {
    let mut fs = MemoryFileSystem::default();
    fs.delete("file").unwrap_err();
}

#[test]
fn test_memory_file_size() {
    let mut fs = MemoryFileSystem::default();
    let file = fs.open("file").unwrap();
    file.write(&mut fs, 0, b"hello").unwrap();
    assert_eq!(file.size(&fs).unwrap(), 5);
}

#[test]
fn test_memory_file_truncate() {
    let mut fs = MemoryFileSystem::default();
    let file = fs.open("file").unwrap();
    file.write(&mut fs, 0, b"hello").unwrap();
    file.truncate(&mut fs, 2).unwrap();
    assert_eq!(file.size(&fs).unwrap(), 2);

    let mut buf = vec![0; 2];
    file.read(&fs, 0, &mut buf).unwrap();
    assert_eq!(&buf, b"he");
}

#[test]
fn test_memory_file_extend() {
    let mut fs = MemoryFileSystem::default();
    let file = fs.open("file").unwrap();
    file.write(&mut fs, 0, b"hello").unwrap();
    file.truncate(&mut fs, 8).unwrap();
    assert_eq!(file.size(&fs).unwrap(), 8);

    let mut buf = vec![0; 5];
    file.read(&fs, 0, &mut buf).unwrap();
    assert_eq!(&buf, b"hello");
}

#[test]
fn test_memory_file_read_write() {
    let mut fs = MemoryFileSystem::default();
    let file = fs.open("file").unwrap();
    file.write(&mut fs, 0, b"hello").unwrap();
    let mut buf = vec![0; 5];
    file.read(&fs, 0, &mut buf).unwrap();
    assert_eq!(&buf, b"hello");
}

#[test]
fn test_memory_file_read_past_eof() {
    let mut fs = MemoryFileSystem::default();
    let file = fs.open("file").unwrap();
    file.write(&mut fs, 0, b"hello").unwrap();
    let mut buf = vec![0; 5];
    file.read(&fs, 4, &mut buf).unwrap_err();
}

#[test]
fn test_memory_file_write_past_eof() {
    let mut fs = MemoryFileSystem::default();
    let file = fs.open("file").unwrap();
    file.write(&mut fs, 0, b"hello").unwrap();
    file.write(&mut fs, 4, b"world").unwrap();
    assert_eq!(file.size(&fs).unwrap(), 9);

    let mut buf = vec![0; 9];
    file.read(&fs, 0, &mut buf).unwrap();
    assert_eq!(&buf, b"hellworld");
}

#[test]
fn test_memory_file_sync() {
    let mut fs = MemoryFileSystem::default();
    let file = fs.open("file").unwrap();
    file.write(&mut fs, 0, b"hello").unwrap();
    file.sync(&mut fs).unwrap();
}

#[test]
fn test_memory_file_lock_unlock() {
    let mut fs = MemoryFileSystem::default();
    let file1 = fs.open("file").unwrap();
    let file2 = fs.open("file").unwrap();

    // No other access is possible once an exclusive lock is created.
    file1.lock(&mut fs).unwrap();
    file2.try_lock(&mut fs).unwrap_err();

    // Once the exclusive lock is dropped, the second file is able to create a lock.
    file1.unlock(&mut fs).unwrap();
    file2.lock(&mut fs).unwrap();
}

#[test]
fn test_memory_file_gap_fill_byte() {
    // A write past the end fills the gap with the fill byte, and a truncate
    // that extends exposes the same fill after the preserved prefix.
    let mut fs = MemoryFileSystem::default();
    let file = fs.open("file").unwrap();
    file.write(&mut fs, 4, b"x").unwrap();
    let mut buf = vec![0; 5];
    file.read(&fs, 0, &mut buf).unwrap();
    assert_eq!(&buf, &[0xCC, 0xCC, 0xCC, 0xCC, b'x']);

    file.truncate(&mut fs, 7).unwrap();
    let mut buf = vec![0; 7];
    file.read(&fs, 0, &mut buf).unwrap();
    assert_eq!(&buf, &[0xCC, 0xCC, 0xCC, 0xCC, b'x', 0xCC, 0xCC]);
}

#[test]
fn test_memory_error_kinds() {
    let mut fs = MemoryFileSystem::default();
    assert_eq!(fs.delete("absent"), Err(StorageError::NotFound));

    let file = fs.open("file").unwrap();
    let mut buf = vec![0; 1];
    assert_eq!(file.read(&fs, 0, &mut buf), Err(StorageError::IoFailure));

    assert_eq!(file.unlock(&mut fs), Err(StorageError::LockConflict));
    file.lock(&mut fs).unwrap();
    assert_eq!(file.lock(&mut fs), Err(StorageError::LockConflict));
}

#[test]
fn test_memory_file_delete_keeps_open_handles() {
    // Deleting a path unbinds the name, but handles opened before keep
    // observing the same file; reopening the path makes a fresh empty file.
    let mut fs = MemoryFileSystem::default();
    let old = fs.open("file").unwrap();
    old.write(&mut fs, 0, b"hello").unwrap();
    fs.delete("file").unwrap();

    assert_eq!(old.size(&fs).unwrap(), 5);

    let fresh = fs.open("file").unwrap();
    assert_eq!(fresh.size(&fs).unwrap(), 0);
    assert_eq!(old.size(&fs).unwrap(), 5);
}

#[test]
fn test_memory_stream_ten_mebibytes() {
    // Write a 10 MiB stream in 4 KiB chunks, reopen the path, and check the
    // contents byte for byte.
    let mut fs = MemoryFileSystem::default();
    let file = fs.open("stream").unwrap();
    let chunks: usize = 10 * 1024 * 1024 / 4096;
    for c in 0..chunks {
        let mut chunk = vec![0u8; 4096];
        for (i, b) in chunk.iter_mut().enumerate() {
            *b = ((c * 31 + i * 7) % 251) as u8;
        }
        file.write(&mut fs, (c * 4096) as u64, &chunk).unwrap();
    }
    assert_eq!(file.size(&fs).unwrap(), 10 * 1024 * 1024);

    let reopened = fs.open("stream").unwrap();
    assert_eq!(reopened.size(&fs).unwrap(), 10 * 1024 * 1024);
    let mut buf = vec![0u8; 4096];
    for c in 0..chunks {
        reopened.read(&fs, (c * 4096) as u64, &mut buf).unwrap();
        for (i, b) in buf.iter().enumerate() {
            assert_eq!(*b, ((c * 31 + i * 7) % 251) as u8);
        }
    }
}
