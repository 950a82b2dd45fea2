//! Byte-level storage behavior of a single inode: round trips, tiling over
//! direct and indirect pages, size growth, timestamps, and error reporting.
use memfs::error::FsError;
use memfs::inode::{ceil_div, create_tlist, Inode, MAX_FILE_SIZE, PAGE_SIZE};

fn rand_array(size: usize) -> Vec<u8> {
    (0..size).map(|_| rand::random::<u8>()).collect()
}

#[test]
fn test_simple_write() {
    const SIZE: usize = 4096 * 8 + 3434;

    let original_data = rand_array(SIZE);
    let time_now = time::OffsetDateTime::now_utc().unix_timestamp();
    let mut inode = Inode::new();
    let mut buf = vec![0u8; SIZE];

    // Write the random data, read it back into buffer
    inode.write(0, &original_data).unwrap();
    inode.read(0, &mut buf).unwrap();

    // Make sure inode is right size
    assert_eq!(SIZE, inode.size());

    // Make sure contents are correct
    for i in 0..SIZE {
        assert_eq!(buf[i], original_data[i]);
    }

    let (create, _, _) = inode.stat();
    assert_eq!(create.sec, time_now);
}

#[test]
fn small_write_round_trip() {
    let mut inode = Inode::new();
    let data = vec![1u8, 2, 3, 4, 5];
    assert_eq!(inode.write(0, &data), Ok(5));
    assert_eq!(inode.size(), 5);
    let mut buf = vec![0u8; 5];
    assert_eq!(inode.read(0, &mut buf), Ok(5));
    assert_eq!(buf, data);
}

#[test]
fn cross_page_write() {
    let mut inode = Inode::new();
    let data = rand_array(20);
    assert_eq!(inode.write(4090, &data), Ok(20));
    assert_eq!(inode.size(), 4110);
    let mut buf = vec![0u8; 20];
    assert_eq!(inode.read(4090, &mut buf), Ok(20));
    assert_eq!(buf, data);
    assert!(inode.page_allocated(0));
    assert!(inode.page_allocated(1));
    assert!(!inode.page_allocated(2));
}

#[test]
fn write_into_indirect_pages() {
    let mut inode = Inode::new();
    let data = rand_array(4096);
    assert_eq!(inode.write(256 * 4096, &data), Ok(4096));
    assert_eq!(inode.size(), 256 * 4096 + 4096);
    assert!(inode.page_allocated(256));
    for n in 0..256 {
        assert!(!inode.page_allocated(n));
    }
    let mut buf = vec![0u8; 4096];
    assert_eq!(inode.read(256 * 4096, &mut buf), Ok(4096));
    assert_eq!(buf, data);
}

#[test]
fn round_trip_at_large_offset() {
    let mut inode = Inode::new();
    let data = rand_array(10000);
    assert_eq!(inode.write(1_000_000, &data), Ok(10000));
    assert_eq!(inode.size(), 1_010_000);
    let mut buf = vec![0u8; 10000];
    assert_eq!(inode.read(1_000_000, &mut buf), Ok(10000));
    assert_eq!(buf, data);
}

#[test]
fn size_is_monotonic_maximum() {
    let mut inode = Inode::new();
    assert_eq!(inode.write(0, &vec![7u8; 10]), Ok(10));
    assert_eq!(inode.size(), 10);
    assert_eq!(inode.write(5, &vec![8u8; 3]), Ok(3));
    assert_eq!(inode.size(), 10);
    assert_eq!(inode.write(8, &vec![9u8; 10]), Ok(10));
    assert_eq!(inode.size(), 18);
    assert_eq!(inode.write(0, &vec![1u8]), Ok(1));
    assert_eq!(inode.size(), 18);
}

#[test]
fn timestamps_equal_at_construction_and_track_writes() {
    let inode = Inode::new();
    let (create, access, modify) = inode.stat();
    assert_eq!(create, access);
    assert_eq!(create, modify);
    assert!(create.nsec >= 0 && create.nsec < 1_000_000_000);

    let mut inode = Inode::new();
    let (create0, _, _) = inode.stat();
    inode.write(0, &vec![1u8, 2, 3]).unwrap();
    let (create1, access1, modify1) = inode.stat();
    assert_eq!(create0, create1);
    assert_eq!(access1, modify1);
    assert!(
        modify1.sec > create1.sec || (modify1.sec == create1.sec && modify1.nsec >= create1.nsec)
    );
}

#[test]
fn zero_length_write_changes_nothing() {
    let mut inode = Inode::new();
    inode.write(3, &vec![5u8, 6]).unwrap();
    let stat_before = inode.stat();
    let empty: Vec<u8> = Vec::new();
    assert_eq!(inode.write(100_000, &empty), Ok(0));
    assert_eq!(inode.size(), 5);
    assert_eq!(inode.stat(), stat_before);
    assert!(!inode.page_allocated(24));
}

#[test]
fn zero_length_read_changes_nothing() {
    let inode = Inode::new();
    let mut buf: Vec<u8> = Vec::new();
    assert_eq!(inode.read(12345, &mut buf), Ok(0));
    assert!(buf.is_empty());
}

#[test]
fn unwritten_bytes_on_touched_pages_read_zero() {
    let mut inode = Inode::new();
    assert_eq!(inode.write(10, &vec![1u8]), Ok(1));
    let mut buf = vec![9u8; 11];
    assert_eq!(inode.read(0, &mut buf), Ok(11));
    assert_eq!(&buf[0..10], &[0u8; 10]);
    assert_eq!(buf[10], 1);
}

#[test]
fn disjoint_page_writes_commute() {
    let a = rand_array(5);
    let b = rand_array(5);

    let mut first = Inode::new();
    first.write(0, &a).unwrap();
    first.write(2 * PAGE_SIZE, &b).unwrap();

    let mut second = Inode::new();
    second.write(2 * PAGE_SIZE, &b).unwrap();
    second.write(0, &a).unwrap();

    assert_eq!(first.size(), second.size());
    let mut buf1 = vec![0u8; 5];
    let mut buf2 = vec![0u8; 5];
    first.read(0, &mut buf1).unwrap();
    second.read(0, &mut buf2).unwrap();
    assert_eq!(buf1, buf2);
    first.read(2 * PAGE_SIZE, &mut buf1).unwrap();
    second.read(2 * PAGE_SIZE, &mut buf2).unwrap();
    assert_eq!(buf1, buf2);
    for n in 0..4 {
        assert_eq!(first.page_allocated(n), second.page_allocated(n));
    }
}

#[test]
fn write_past_maximum_size_is_file_too_large() {
    let mut inode = Inode::new();
    assert_eq!(
        inode.write(MAX_FILE_SIZE - 2, &vec![0u8; 5]),
        Err(FsError::FileTooLarge)
    );
    assert_eq!(
        inode.write(MAX_FILE_SIZE + 1, &vec![0u8]),
        Err(FsError::FileTooLarge)
    );
    assert_eq!(inode.size(), 0);
    // The last byte in range is still writable.
    assert_eq!(inode.write(MAX_FILE_SIZE - 1, &vec![42u8]), Ok(1));
    assert_eq!(inode.size(), MAX_FILE_SIZE);
}

#[test]
fn read_past_maximum_size_is_page_out_of_range() {
    let inode = Inode::new();
    let mut buf = vec![0u8; 2];
    assert_eq!(
        inode.read(MAX_FILE_SIZE - 1, &mut buf),
        Err(FsError::PageOutOfRange)
    );
}

#[test]
fn read_past_size_or_over_hole_is_unallocated_read() {
    let mut inode = Inode::new();
    inode.write(0, &vec![1u8]).unwrap();
    let mut buf = vec![0u8; 2];
    // Past the logical size.
    assert_eq!(inode.read(0, &mut buf), Err(FsError::UnallocatedRead));
    assert_eq!(buf, vec![0u8; 2]);

    // Within the size but over a page never written.
    let mut inode = Inode::new();
    inode.write(2 * PAGE_SIZE, &vec![1u8]).unwrap();
    let mut one = vec![0u8; 1];
    assert_eq!(inode.read(0, &mut one), Err(FsError::UnallocatedRead));
}

#[test]
fn ceil_div_counts_pages() {
    assert_eq!(ceil_div(0, PAGE_SIZE), 0);
    assert_eq!(ceil_div(1, PAGE_SIZE), 1);
    assert_eq!(ceil_div(PAGE_SIZE, PAGE_SIZE), 1);
    assert_eq!(ceil_div(PAGE_SIZE + 1, PAGE_SIZE), 2);
    assert_eq!(ceil_div(10, 3), 4);
}

#[test]
fn create_tlist_is_all_absent() {
    let list: Vec<Option<u8>> = create_tlist();
    assert_eq!(list.len(), 256);
    assert!(list.iter().all(|slot| slot.is_none()));
}
