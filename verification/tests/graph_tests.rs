//! The file/directory graph and handles: aliasing through the arena,
//! directory entry manipulation, cursors, and seek arithmetic.
use memfs::directory::DirectoryHandle;
use memfs::error::FsError;
use memfs::file::{File, FileHandle, Fs, Whence};
use memfs::inode::Inode;

#[test]
fn directory_round_trip() {
    let mut fs = Fs::new();
    let mut d = File::new_dir(&mut fs, None);
    let inode_id = fs.add_inode(Inode::new());
    let f = File::new_data_file(inode_id);
    assert!(d.is_dir());
    assert!(!f.is_dir());
    d.insert(&mut fs, "x".to_owned(), f).unwrap();
    assert!(matches!(d.get(&fs, &"x".to_owned()), Ok(Some(_))));
    d.remove(&mut fs, &"x".to_owned()).unwrap();
    assert!(matches!(d.get(&fs, &"x".to_owned()), Ok(None)));
}

#[test]
fn directory_insert_replaces_and_remove_erases() {
    let mut fs = Fs::new();
    let mut d = File::new_dir(&mut fs, None);
    let i1 = fs.add_inode(Inode::new());
    let i2 = fs.add_inode(Inode::new());
    let f1 = File::new_data_file(i1);
    let f2 = File::new_data_file(i2);
    d.insert(&mut fs, "n".to_owned(), f1).unwrap();
    d.insert(&mut fs, "n".to_owned(), f2).unwrap();
    assert_eq!(d.get(&fs, &"n".to_owned()), Ok(Some(f2)));
    d.remove(&mut fs, &"n".to_owned()).unwrap();
    assert_eq!(d.get(&fs, &"n".to_owned()), Ok(None));
    // Removing an absent name is a silent no-op.
    d.remove(&mut fs, &"n".to_owned()).unwrap();
    assert_eq!(d.get(&fs, &"n".to_owned()), Ok(None));
}

#[test]
fn directories_nest() {
    let mut fs = Fs::new();
    let mut root = File::new_dir(&mut fs, None);
    let child = File::new_dir(&mut fs, Some(root));
    root.insert(&mut fs, "sub".to_owned(), child).unwrap();
    let got = root.get(&fs, &"sub".to_owned()).unwrap().unwrap();
    assert!(got.is_dir());
    assert_eq!(got, child);
}

#[test]
fn directory_operations_on_non_directories_fail() {
    let mut fs = Fs::new();
    let id = fs.add_inode(Inode::new());
    let mut f = File::new_data_file(id);
    let g = File::EmptyFile;
    assert_eq!(
        f.insert(&mut fs, "a".to_owned(), g),
        Err(FsError::NotADirectory)
    );
    assert_eq!(f.remove(&mut fs, &"a".to_owned()), Err(FsError::NotADirectory));
    assert_eq!(f.get(&fs, &"a".to_owned()), Err(FsError::NotADirectory));
    assert_eq!(f.get_dir_rc(), Err(FsError::NotADirectory));
    assert_eq!(File::EmptyFile.get_inode_rc(), Err(FsError::NotAFile));
    assert_eq!(f.get_inode_rc(), Ok(id));
}

#[test]
fn handles_share_the_inode_but_not_the_cursor() {
    let mut fs = Fs::new();
    let id = fs.add_inode(Inode::new());
    let mut h1 = FileHandle::new(File::new_data_file(id));
    let mut h2 = FileHandle::new(File::new_data_file(id));

    assert_eq!(h1.write(&mut fs, &vec![1u8, 2, 3]), Ok(3));
    // The write moved only the writing handle's cursor.
    assert_eq!(h1.seek(&fs, 0, Whence::SeekCur), Ok(3));
    assert_eq!(h2.seek(&fs, 0, Whence::SeekCur), Ok(0));

    // The other handle reads what the first wrote, from position zero.
    let mut buf = vec![0u8; 3];
    assert_eq!(h2.read(&fs, &mut buf), Ok(3));
    assert_eq!(buf, vec![1u8, 2, 3]);
    // The read moved only the reading handle's cursor.
    assert_eq!(h2.seek(&fs, 0, Whence::SeekCur), Ok(3));
    assert_eq!(h1.seek(&fs, 0, Whence::SeekCur), Ok(3));
}

#[test]
fn sequential_reads_and_writes_advance_the_cursor() {
    let mut fs = Fs::new();
    let id = fs.add_inode(Inode::new());
    let mut h = FileHandle::new(File::new_data_file(id));
    assert_eq!(h.write(&mut fs, &vec![1u8, 2]), Ok(2));
    assert_eq!(h.write(&mut fs, &vec![3u8, 4]), Ok(2));
    assert_eq!(h.seek(&fs, 0, Whence::SeekSet), Ok(0));
    let mut buf = vec![0u8; 4];
    assert_eq!(h.read(&fs, &mut buf), Ok(4));
    assert_eq!(buf, vec![1u8, 2, 3, 4]);
}

#[test]
fn seek_anchors_and_errors() {
    let mut fs = Fs::new();
    let id = fs.add_inode(Inode::new());
    let mut h = FileHandle::new(File::new_data_file(id));
    h.write(&mut fs, &vec![0u8; 10]).unwrap();

    assert_eq!(h.seek(&fs, 4, Whence::SeekSet), Ok(4));
    assert_eq!(h.seek(&fs, 2, Whence::SeekCur), Ok(6));
    assert_eq!(h.seek(&fs, -3, Whence::SeekCur), Ok(3));
    assert_eq!(h.seek(&fs, -2, Whence::SeekEnd), Ok(8));
    assert_eq!(h.seek(&fs, 5, Whence::SeekEnd), Ok(15));

    assert_eq!(h.seek(&fs, -1, Whence::SeekSet), Err(FsError::InvalidSeek));
    assert_eq!(h.seek(&fs, -16, Whence::SeekCur), Err(FsError::InvalidSeek));
    assert_eq!(h.seek(&fs, -11, Whence::SeekEnd), Err(FsError::InvalidSeek));
    // A failed seek leaves the cursor alone.
    assert_eq!(h.seek(&fs, 0, Whence::SeekCur), Ok(15));

    // Seeking past the end extends nothing by itself.
    assert_eq!(fs.inode_ref(id).size(), 10);
}

#[test]
fn byte_operations_through_non_files_fail() {
    let mut fs = Fs::new();
    let mut h = FileHandle::new(File::EmptyFile);
    let mut buf = vec![0u8; 1];
    assert_eq!(h.read(&fs, &mut buf), Err(FsError::NotAFile));
    assert_eq!(h.write(&mut fs, &vec![1u8]), Err(FsError::NotAFile));
    assert_eq!(h.seek(&fs, 0, Whence::SeekSet), Err(FsError::NotAFile));

    let d = File::new_dir(&mut fs, None);
    let mut hd = FileHandle::new(d);
    assert_eq!(hd.read(&fs, &mut buf), Err(FsError::NotAFile));
}

#[test]
fn handle_write_propagates_inode_errors() {
    let mut fs = Fs::new();
    let id = fs.add_inode(Inode::new());
    let mut h = FileHandle::new(File::new_data_file(id));
    let mut buf = vec![0u8; 1];
    // Reading an empty file fails and leaves the cursor alone.
    assert_eq!(h.read(&fs, &mut buf), Err(FsError::UnallocatedRead));
    assert_eq!(h.seek(&fs, 0, Whence::SeekCur), Ok(0));
}
