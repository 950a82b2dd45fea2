//! The shared file/directory graph. A `Fs` arena owns every inode and every
//! directory table; a `File` is a cheap tagged handle into the arena, so two
//! `File` values may alias the same inode or directory, and mutation through
//! one alias is visible through every other. A `FileHandle` adds a per-opener
//! seek cursor over a `File`.
use vstd::prelude::*;

use crate::error::FsError;
use crate::inode::{read_outcome, write_outcome, Inode, MAX_FILE_SIZE};

verus! {

/// A handle to an inode of the arena: its index among the arena's inodes.
pub type RcInode = usize;

/// A handle to a directory table of the arena: its index among the arena's
/// directory tables.
pub type RcDirContent = usize;

/// The keys of two distinct entries always differ.
spec fn unique_keys(s: Seq<(String, File)>) -> bool {
    forall|i: int, j: int| 0 <= i < j < s.len() ==> (#[trigger] s[i]).0@ != (#[trigger] s[j]).0@
}

/// The name-to-file mapping an entry list denotes; a later entry under the
/// same name supersedes an earlier one.
spec fn entry_map(s: Seq<(String, File)>) -> Map<Seq<char>, File>
    decreases s.len(),
{
    if s.len() == 0 {
        Map::empty()
    } else {
        entry_map(s.drop_last()).insert(s.last().0@, s.last().1)
    }
}

/// A name is in the denoted mapping exactly when some entry bears it.
proof fn lemma_entry_map_contains(s: Seq<(String, File)>, k: Seq<char>)
    ensures
        entry_map(s).contains_key(k) <==> exists|i: int|
            0 <= i < s.len() && (#[trigger] s[i]).0@ == k,
    decreases s.len(),
{
    if s.len() > 0 {
        lemma_entry_map_contains(s.drop_last(), k);
        if s.last().0@ == k {
            assert(s[s.len() - 1].0@ == k);
        } else {
            if entry_map(s).contains_key(k) {
                let i = choose|i: int| 0 <= i < s.drop_last().len() && (#[trigger] s.drop_last(
                )[i]).0@ == k;
                assert(s[i].0@ == k);
            }
            if exists|i: int| 0 <= i < s.len() && (#[trigger] s[i]).0@ == k {
                let i = choose|i: int| 0 <= i < s.len() && (#[trigger] s[i]).0@ == k;
                assert(s.drop_last()[i].0@ == k);
            }
        }
    }
}

/// With unique keys, the denoted mapping sends each entry's name to its file.
proof fn lemma_entry_map_at(s: Seq<(String, File)>, i: int)
    requires
        unique_keys(s),
        0 <= i < s.len(),
    ensures
        entry_map(s).contains_key(s[i].0@),
        entry_map(s)[s[i].0@] == s[i].1,
    decreases s.len(),
{
    if i < s.len() - 1 {
        assert(s.drop_last()[i] == s[i]);
        lemma_entry_map_at(s.drop_last(), i);
    }
}

/// With unique keys, removing the entry at `i` removes its name.
proof fn lemma_entry_map_remove(s: Seq<(String, File)>, i: int)
    requires
        unique_keys(s),
        0 <= i < s.len(),
    ensures
        entry_map(s.remove(i)) =~= entry_map(s).remove(s[i].0@),
    decreases s.len(),
{
    let k = s[i].0@;
    if i == s.len() - 1 {
        assert(s.remove(i) =~= s.drop_last());
        lemma_entry_map_contains(s.drop_last(), k);
        assert(!entry_map(s.drop_last()).contains_key(k));
        assert(entry_map(s).remove(k) =~= entry_map(s.drop_last()));
    } else {
        let dl = s.drop_last();
        assert(s.remove(i).drop_last() =~= dl.remove(i));
        assert(s.remove(i).last() == s.last());
        assert(s.remove(i).len() == s.len() - 1);
        assert(dl[i] == s[i]);
        lemma_entry_map_remove(dl, i);
        assert(entry_map(s.remove(i)) =~= entry_map(dl.remove(i)).insert(
            s.last().0@,
            s.last().1,
        ));
        assert(s.last().0@ != k);
    }
}

/// The name-to-file table one directory owns. Names are unique; inserting an
/// existing name replaces its file.
pub struct DirectoryContent {
    entries: Vec<(String, File)>,
}

impl View for DirectoryContent {
    type V = Map<Seq<char>, File>;

    closed spec fn view(&self) -> Map<Seq<char>, File> {
        entry_map(self.entries@)
    }
}

impl DirectoryContent {
    /// Names are stored at most once.
    pub closed spec fn wf(self) -> bool {
        unique_keys(self.entries@)
    }

    /// An empty table.
    pub fn new() -> (r: DirectoryContent)
        ensures
            r.wf(),
            r@ == Map::<Seq<char>, File>::empty(),
    {
        DirectoryContent { entries: Vec::new() }
    }

    /// The position of the entry named `name`, if any.
    fn find_entry(&self, name: &String) -> (r: Option<usize>)
        ensures
            match r {
                Some(i) => i < self.entries@.len() && self.entries@[i as int].0@ == name@,
                None => forall|i: int|
                    0 <= i < self.entries@.len() ==> (#[trigger] self.entries@[i]).0@ != name@,
            },
    {
        let n = self.entries.len();
        let mut i: usize = 0;
        #[verifier::loop_isolation(false)]
        while i < n
            invariant
                i <= n,
                forall|j: int| 0 <= j < i ==> (#[trigger] self.entries@[j]).0@ != name@,
            decreases n - i,
        {
            if self.entries[i].0 == *name {
                return Some(i);
            }
            i += 1;
        }
        None
    }

    /// Adds or replaces the entry `name -> file`.
    pub fn insert(&mut self, name: String, file: File)
        requires
            old(self).wf(),
        ensures
            final(self).wf(),
            final(self)@ == old(self)@.insert(name@, file),
    {
        let ghost m0 = self@;
        self.remove(&name);
        let ghost s1 = self.entries@;
        self.entries.push((name, file));
        proof {
            assert(self.entries@.drop_last() =~= s1);
            lemma_entry_map_contains(s1, name@);
            assert forall|i: int, j: int| 0 <= i < j < self.entries@.len() implies (
            #[trigger] self.entries@[i]).0@ != (#[trigger] self.entries@[j]).0@ by {
                if j == self.entries@.len() - 1 {
                    assert(self.entries@[i] == s1[i]);
                }
            }
            assert(self@ =~= m0.insert(name@, file));
        }
    }

    /// Removes the entry named `name` if present; an absent name is a silent
    /// no-op.
    pub fn remove(&mut self, name: &String)
        requires
            old(self).wf(),
        ensures
            final(self).wf(),
            final(self)@ == old(self)@.remove(name@),
    {
        let found = self.find_entry(name);
        match found {
            Some(i) => {
                let ghost s0 = self.entries@;
                self.entries.remove(i);
                proof {
                    lemma_entry_map_remove(s0, i as int);
                    assert(self@ =~= old(self)@.remove(name@));
                }
            },
            None => {
                proof {
                    lemma_entry_map_contains(self.entries@, name@);
                    assert(!self@.contains_key(name@));
                    assert(self@ =~= old(self)@.remove(name@));
                }
            },
        }
    }

    /// The file stored under `name`, if any; the returned handle aliases the
    /// stored one.
    pub fn get(&self, name: &String) -> (r: Option<File>)
        requires
            self.wf(),
        ensures
            r == (if self@.contains_key(name@) {
                Some(self@[name@])
            } else {
                None::<File>
            }),
    {
        let found = self.find_entry(name);
        match found {
            Some(i) => {
                let f = self.entries[i].1;
                proof {
                    lemma_entry_map_at(self.entries@, i as int);
                }
                Some(f)
            },
            None => {
                proof {
                    lemma_entry_map_contains(self.entries@, name@);
                }
                None
            },
        }
    }
}

/// The filesystem arena: the owner of every inode and every directory table.
/// `File` handles address it by index, which is what makes them cheap to
/// copy and lets several handles alias one object.
pub struct Fs {
    inodes: Vec<Inode>,
    dirs: Vec<DirectoryContent>,
}

impl Fs {
    /// Number of inodes the arena owns.
    pub closed spec fn n_inodes(self) -> nat {
        self.inodes@.len()
    }

    /// Number of directory tables the arena owns.
    pub closed spec fn n_dirs(self) -> nat {
        self.dirs@.len()
    }

    /// The inode stored at index `i`.
    pub closed spec fn inode_at(self, i: int) -> Inode {
        self.inodes@[i]
    }

    /// The name-to-file mapping of the directory table at index `d`.
    pub closed spec fn dir_map(self, d: int) -> Map<Seq<char>, File> {
        self.dirs@[d]@
    }

    /// Every inode and every directory table is well formed.
    pub closed spec fn wf(self) -> bool {
        &&& forall|i: int| 0 <= i < self.inodes@.len() ==> (#[trigger] self.inodes@[i]).wf()
        &&& forall|d: int| 0 <= d < self.dirs@.len() ==> (#[trigger] self.dirs@[d]).wf()
    }

    /// An empty arena.
    pub fn new() -> (r: Fs)
        ensures
            r.wf(),
            r.n_inodes() == 0,
            r.n_dirs() == 0,
    {
        Fs { inodes: Vec::new(), dirs: Vec::new() }
    }

    /// Moves `inode` into the arena and returns its handle.
    pub fn add_inode(&mut self, inode: Inode) -> (r: RcInode)
        requires
            old(self).wf(),
            inode.wf(),
        ensures
            final(self).wf(),
            r == old(self).n_inodes(),
            final(self).n_inodes() == old(self).n_inodes() + 1,
            final(self).inode_at(r as int) == inode,
            forall|i: int|
                0 <= i < old(self).n_inodes() ==> final(self).inode_at(i) == old(self).inode_at(i),
            final(self).n_dirs() == old(self).n_dirs(),
            forall|d: int|
                0 <= d < old(self).n_dirs() ==> final(self).dir_map(d) == old(self).dir_map(d),
    {
        let r = self.inodes.len();
        self.inodes.push(inode);
        r
    }

    /// Number of inodes, as an executable query.
    pub fn inode_count(&self) -> (r: usize)
        ensures
            r == self.n_inodes(),
    {
        self.inodes.len()
    }

    /// Number of directory tables, as an executable query.
    pub fn dir_count(&self) -> (r: usize)
        ensures
            r == self.n_dirs(),
    {
        self.dirs.len()
    }

    /// A shared reference to the inode at `i`.
    pub fn inode_ref(&self, i: RcInode) -> (r: &Inode)
        requires
            i < self.n_inodes(),
        ensures
            *r == self.inode_at(i as int),
    {
        &self.inodes[i]
    }

    /// Writes through the inode at `i`, as `Inode::write` does.
    pub fn inode_write(&mut self, i: RcInode, offset: usize, data: &Vec<u8>) -> (r: Result<
        usize,
        FsError,
    >)
        requires
            old(self).wf(),
            i < old(self).n_inodes(),
        ensures
            final(self).wf(),
            write_outcome(
                old(self).inode_at(i as int),
                final(self).inode_at(i as int),
                offset as int,
                data@,
                r,
            ),
            final(self).n_inodes() == old(self).n_inodes(),
            forall|j: int|
                0 <= j < old(self).n_inodes() && j != i ==> final(self).inode_at(j) == old(
                    self,
                ).inode_at(j),
            final(self).n_dirs() == old(self).n_dirs(),
            forall|d: int|
                0 <= d < old(self).n_dirs() ==> final(self).dir_map(d) == old(self).dir_map(d),
    {
        self.inodes[i].write(offset, data)
    }

    /// Adds an empty directory table to the arena and returns its handle.
    pub fn add_dir(&mut self) -> (r: RcDirContent)
        requires
            old(self).wf(),
        ensures
            final(self).wf(),
            r == old(self).n_dirs(),
            final(self).n_dirs() == old(self).n_dirs() + 1,
            final(self).dir_map(r as int) == Map::<Seq<char>, File>::empty(),
            forall|d: int|
                0 <= d < old(self).n_dirs() ==> final(self).dir_map(d) == old(self).dir_map(d),
            final(self).n_inodes() == old(self).n_inodes(),
            forall|i: int|
                0 <= i < old(self).n_inodes() ==> final(self).inode_at(i) == old(self).inode_at(i),
    {
        let r = self.dirs.len();
        self.dirs.push(DirectoryContent::new());
        r
    }

    /// Adds or replaces `name -> file` in the directory table at `d`.
    pub fn dir_insert(&mut self, d: RcDirContent, name: String, file: File)
        requires
            old(self).wf(),
            d < old(self).n_dirs(),
        ensures
            final(self).wf(),
            final(self).dir_map(d as int) == old(self).dir_map(d as int).insert(name@, file),
            final(self).n_dirs() == old(self).n_dirs(),
            forall|e: int|
                0 <= e < old(self).n_dirs() && e != d ==> final(self).dir_map(e) == old(
                    self,
                ).dir_map(e),
            final(self).n_inodes() == old(self).n_inodes(),
            forall|i: int|
                0 <= i < old(self).n_inodes() ==> final(self).inode_at(i) == old(self).inode_at(i),
    {
        self.dirs[d].insert(name, file);
    }

    /// Removes the entry named `name` from the directory table at `d`.
    pub fn dir_remove(&mut self, d: RcDirContent, name: &String)
        requires
            old(self).wf(),
            d < old(self).n_dirs(),
        ensures
            final(self).wf(),
            final(self).dir_map(d as int) == old(self).dir_map(d as int).remove(name@),
            final(self).n_dirs() == old(self).n_dirs(),
            forall|e: int|
                0 <= e < old(self).n_dirs() && e != d ==> final(self).dir_map(e) == old(
                    self,
                ).dir_map(e),
            final(self).n_inodes() == old(self).n_inodes(),
            forall|i: int|
                0 <= i < old(self).n_inodes() ==> final(self).inode_at(i) == old(self).inode_at(i),
    {
        self.dirs[d].remove(name);
    }

    /// The file stored under `name` in the directory table at `d`, if any.
    pub fn dir_get(&self, d: RcDirContent, name: &String) -> (r: Option<File>)
        requires
            self.wf(),
            d < self.n_dirs(),
        ensures
            r == (if self.dir_map(d as int).contains_key(name@) {
                Some(self.dir_map(d as int)[name@])
            } else {
                None::<File>
            }),
    {
        self.dirs[d].get(name)
    }
}

/// A tagged handle: a data file over an inode, a directory over a table of
/// entries, or the empty sentinel. Copying a `File` copies the handle, never
/// the object, so copies alias one another.
#[derive(Clone, Copy, Debug, PartialEq, Eq, Structural)]
pub enum File {
    DataFile(RcInode),
    Directory(RcDirContent),
    EmptyFile,
}

impl File {
    /// The handle denotes a directory table that `fs` owns.
    pub open spec fn is_dir_in(self, fs: Fs) -> bool {
        self matches File::Directory(d) && d < fs.n_dirs()
    }

    /// The handle denotes an inode that `fs` owns.
    pub open spec fn is_data_file_in(self, fs: Fs) -> bool {
        self matches File::DataFile(i) && i < fs.n_inodes()
    }

    /// A fresh directory with an empty entry table. The parent argument is
    /// reserved for a future automatic self and parent entry feature and is
    /// deliberately ignored.
    pub fn new_dir(fs: &mut Fs, _parent: Option<File>) -> (r: File)
        requires
            old(fs).wf(),
        ensures
            final(fs).wf(),
            r == File::Directory(old(fs).n_dirs() as usize),
            r.is_dir_in(*final(fs)),
            final(fs).n_dirs() == old(fs).n_dirs() + 1,
            final(fs).dir_map(old(fs).n_dirs() as int) == Map::<Seq<char>, File>::empty(),
            forall|d: int|
                0 <= d < old(fs).n_dirs() ==> final(fs).dir_map(d) == old(fs).dir_map(d),
            final(fs).n_inodes() == old(fs).n_inodes(),
            forall|i: int|
                0 <= i < old(fs).n_inodes() ==> final(fs).inode_at(i) == old(fs).inode_at(i),
    {
        let d = fs.add_dir();
        File::Directory(d)
    }

    /// A data-file handle over the given inode handle.
    pub fn new_data_file(inode: RcInode) -> (r: File)
        ensures
            r == File::DataFile(inode),
    {
        File::DataFile(inode)
    }

    /// The directory-table handle inside, or `NotADirectory`.
    pub fn get_dir_rc(&self) -> (r: Result<RcDirContent, FsError>)
        ensures
            r == (match *self {
                File::Directory(d) => Ok::<RcDirContent, FsError>(d),
                _ => Err::<RcDirContent, FsError>(FsError::NotADirectory),
            }),
    {
        match self {
            File::Directory(d) => Ok(*d),
            _ => Err(FsError::NotADirectory),
        }
    }

    /// The inode handle inside, or `NotAFile`.
    pub fn get_inode_rc(&self) -> (r: Result<RcInode, FsError>)
        ensures
            r == (match *self {
                File::DataFile(i) => Ok::<RcInode, FsError>(i),
                _ => Err::<RcInode, FsError>(FsError::NotAFile),
            }),
    {
        match self {
            File::DataFile(i) => Ok(*i),
            _ => Err(FsError::NotAFile),
        }
    }
}

/// The anchor of a seek: the file start, the current cursor, or the file
/// end.
#[derive(Clone, Copy, Debug, PartialEq, Eq, Structural)]
pub enum Whence {
    SeekSet,
    SeekCur,
    SeekEnd,
}

/// The byte position a seek aims at: the delta taken from the chosen anchor.
pub open spec fn seek_target(whence: Whence, cursor: int, size: int, delta: int) -> int {
    match whence {
        Whence::SeekSet => delta,
        Whence::SeekCur => cursor + delta,
        Whence::SeekEnd => size + delta,
    }
}

/// A per-opener cursor over a `File`. Two handles over the same file share
/// the underlying inode but move their cursors independently.
#[derive(Clone, Copy, Debug)]
pub struct FileHandle {
    file: File,
    seek: usize,
}

impl FileHandle {
    /// The file the handle was opened over.
    pub closed spec fn file_of(self) -> File {
        self.file
    }

    /// The current cursor position.
    pub closed spec fn cursor(self) -> usize {
        self.seek
    }

    /// Opens a handle over `file`; the cursor starts at zero.
    pub fn new(file: File) -> (r: FileHandle)
        ensures
            r.file_of() == file,
            r.cursor() == 0,
    {
        FileHandle { file, seek: 0 }
    }

    /// Reads `dst.len()` bytes at the cursor from the underlying inode, as
    /// `Inode::read` does; on success the cursor advances by the bytes read.
    /// A handle whose file is not a data file of `fs` fails with `NotAFile`.
    pub fn read(&mut self, fs: &Fs, dst: &mut Vec<u8>) -> (r: Result<usize, FsError>)
        requires
            fs.wf(),
        ensures
            final(self).file_of() == old(self).file_of(),
            final(dst)@.len() == old(dst)@.len(),
            !old(self).file_of().is_data_file_in(*fs) ==> r == Err::<usize, FsError>(
                FsError::NotAFile,
            ) && *final(self) == *old(self) && final(dst)@ == old(dst)@,
            old(self).file_of().is_data_file_in(*fs) ==> {
                let ino = fs.inode_at(old(self).file_of()->DataFile_0 as int);
                &&& read_outcome(ino, old(self).cursor() as int, old(dst)@, final(dst)@, r)
                &&& (r matches Ok(n) ==> final(self).cursor() == old(self).cursor() + n)
                &&& (r is Err ==> final(self).cursor() == old(self).cursor())
            },
    {
        let id = match self.file {
            File::DataFile(i) => i,
            _ => {
                return Err(FsError::NotAFile);
            },
        };
        if id >= fs.inode_count() {
            return Err(FsError::NotAFile);
        }
        let ino = fs.inode_ref(id);
        let res = ino.read(self.seek, dst);
        match res {
            Ok(n) => {
                self.seek = self.seek + n;
                Ok(n)
            },
            Err(e) => Err(e),
        }
    }

    /// Writes `src` at the cursor through the underlying inode, as
    /// `Inode::write` does; on success the cursor advances by the bytes
    /// written. Inodes other than the underlying one, and every directory,
    /// are untouched. A handle whose file is not a data file of `fs` fails
    /// with `NotAFile` and changes nothing.
    pub fn write(&mut self, fs: &mut Fs, src: &Vec<u8>) -> (r: Result<usize, FsError>)
        requires
            old(fs).wf(),
        ensures
            final(fs).wf(),
            final(self).file_of() == old(self).file_of(),
            !old(self).file_of().is_data_file_in(*old(fs)) ==> r == Err::<usize, FsError>(
                FsError::NotAFile,
            ) && *final(self) == *old(self) && *final(fs) == *old(fs),
            old(self).file_of().is_data_file_in(*old(fs)) ==> {
                let i = old(self).file_of()->DataFile_0 as int;
                &&& write_outcome(
                    old(fs).inode_at(i),
                    final(fs).inode_at(i),
                    old(self).cursor() as int,
                    src@,
                    r,
                )
                &&& final(fs).n_inodes() == old(fs).n_inodes()
                &&& forall|j: int|
                    0 <= j < old(fs).n_inodes() && j != i ==> final(fs).inode_at(j) == old(
                        fs,
                    ).inode_at(j)
                &&& final(fs).n_dirs() == old(fs).n_dirs()
                &&& forall|d: int|
                    0 <= d < old(fs).n_dirs() ==> final(fs).dir_map(d) == old(fs).dir_map(d)
                &&& (r matches Ok(n) ==> final(self).cursor() == old(self).cursor() + n)
                &&& (r is Err ==> final(self).cursor() == old(self).cursor())
            },
    {
        let id = match self.file {
            File::DataFile(i) => i,
            _ => {
                return Err(FsError::NotAFile);
            },
        };
        if id >= fs.inode_count() {
            return Err(FsError::NotAFile);
        }
        let res = fs.inode_write(id, self.seek, src);
        match res {
            Ok(n) => {
                self.seek = self.seek + n;
                Ok(n)
            },
            Err(e) => Err(e),
        }
    }

    /// Moves the cursor to the delta taken from the chosen anchor and
    /// returns the new position. A target that would be negative, or one
    /// beyond what a cursor can represent, fails with `InvalidSeek` and
    /// leaves the cursor alone. Seeking past the end is allowed and extends
    /// nothing. As every anchor is resolved against the underlying inode, a
    /// handle whose file is not a data file of `fs` fails with `NotAFile`.
    pub fn seek(&mut self, fs: &Fs, offset: isize, whence: Whence) -> (r: Result<usize, FsError>)
        requires
            fs.wf(),
        ensures
            final(self).file_of() == old(self).file_of(),
            !old(self).file_of().is_data_file_in(*fs) ==> r == Err::<usize, FsError>(
                FsError::NotAFile,
            ) && *final(self) == *old(self),
            old(self).file_of().is_data_file_in(*fs) ==> {
                let target = seek_target(
                    whence,
                    old(self).cursor() as int,
                    fs.inode_at(old(self).file_of()->DataFile_0 as int).spec_size() as int,
                    offset as int,
                );
                &&& (0 <= target <= usize::MAX ==> r == Ok::<usize, FsError>(target as usize)
                    && final(self).cursor() == target)
                &&& (!(0 <= target <= usize::MAX) ==> r == Err::<usize, FsError>(
                    FsError::InvalidSeek,
                ) && final(self).cursor() == old(self).cursor())
            },
    {
        let id = match self.file {
            File::DataFile(i) => i,
            _ => {
                return Err(FsError::NotAFile);
            },
        };
        if id >= fs.inode_count() {
            return Err(FsError::NotAFile);
        }
        let base: usize = match whence {
            Whence::SeekSet => 0,
            Whence::SeekCur => self.seek,
            Whence::SeekEnd => fs.inode_ref(id).size(),
        };
        if offset >= 0 {
            let delta = offset as usize;
            if base > usize::MAX - delta {
                return Err(FsError::InvalidSeek);
            }
            let t = base + delta;
            self.seek = t;
            Ok(t)
        } else {
            let magnitude: usize = if offset == isize::MIN {
                (isize::MAX as usize) + 1
            } else {
                (-offset) as usize
            };
            if magnitude > base {
                return Err(FsError::InvalidSeek);
            }
            let t = base - magnitude;
            self.seek = t;
            Ok(t)
        }
    }
}

/// Handle aliasing: two handles opened over the same data file read and
/// write one shared inode. After a successful write through the first
/// handle, the written range is readable through the second handle's file
/// and holds exactly the written bytes; the second handle itself, holding
/// only an index and its own cursor, is untouched by the write.
pub proof fn lemma_handle_aliasing(
    pre: Fs,
    post: Fs,
    h1: FileHandle,
    h2: FileHandle,
    data: Seq<u8>,
)
    requires
        pre.wf(),
        h1.file_of() == h2.file_of(),
        h1.file_of().is_data_file_in(pre),
        0 < data.len(),
        h1.cursor() + data.len() <= MAX_FILE_SIZE,
        crate::inode::write_effect(
            pre.inode_at(h1.file_of()->DataFile_0 as int),
            post.inode_at(h1.file_of()->DataFile_0 as int),
            h1.cursor() as int,
            data,
        ),
    ensures
        post.inode_at(h2.file_of()->DataFile_0 as int).readable(
            h1.cursor() as int,
            data.len() as int,
        ),
        post.inode_at(h2.file_of()->DataFile_0 as int).bytes_at(h1.cursor() as int, data.len())
            == data,
{
    crate::inode::lemma_write_read_round_trip(
        pre.inode_at(h1.file_of()->DataFile_0 as int),
        post.inode_at(h1.file_of()->DataFile_0 as int),
        h1.cursor() as int,
        data,
    );
}

} // verus!
