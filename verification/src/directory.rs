//! Directory manipulation, exposed on the `File` surface: a directory-
//! flavored handle inserts, removes, and looks up named children in its
//! entry table inside the filesystem arena.
use vstd::prelude::*;

use crate::error::FsError;
use crate::file::{File, Fs};

verus! {

/// The directory surface of a file handle. Every operation resolves the
/// handle against the arena; a handle that does not denote a directory of
/// the arena reports `NotADirectory`.
pub trait DirectoryHandle: Sized {
    /// Whether the handle is directory-flavored.
    fn is_dir(&self) -> bool;

    /// Adds or replaces the entry `name -> file`.
    fn insert(&mut self, fs: &mut Fs, name: String, file: Self) -> (r: Result<(), FsError>)
        requires
            old(fs).wf(),
        ensures
            final(fs).wf(),
    ;

    /// Removes the entry named `name`; an absent name is a silent no-op.
    fn remove(&mut self, fs: &mut Fs, name: &String) -> (r: Result<(), FsError>)
        requires
            old(fs).wf(),
        ensures
            final(fs).wf(),
    ;

    /// The child stored under `name`, if any, as an aliasing handle.
    fn get(&self, fs: &Fs, name: &String) -> (r: Result<Option<Self>, FsError>)
        requires
            fs.wf(),
    ;
}

impl DirectoryHandle for File {
    fn is_dir(&self) -> (r: bool)
        ensures
            r == (*self matches File::Directory(_)),
    {
        match self {
            File::Directory(_) => true,
            _ => false,
        }
    }

    fn insert(&mut self, fs: &mut Fs, name: String, file: File) -> (r: Result<(), FsError>)
        ensures
            *final(self) == *old(self),
            !old(self).is_dir_in(*old(fs)) ==> r == Err::<(), FsError>(FsError::NotADirectory)
                && *final(fs) == *old(fs),
            old(self).is_dir_in(*old(fs)) ==> {
                let d = (*old(self))->Directory_0 as int;
                &&& r == Ok::<(), FsError>(())
                &&& final(fs).dir_map(d) == old(fs).dir_map(d).insert(name@, file)
                &&& final(fs).n_dirs() == old(fs).n_dirs()
                &&& forall|e: int|
                    0 <= e < old(fs).n_dirs() && e != d ==> final(fs).dir_map(e) == old(
                        fs,
                    ).dir_map(e)
                &&& final(fs).n_inodes() == old(fs).n_inodes()
                &&& forall|i: int|
                    0 <= i < old(fs).n_inodes() ==> final(fs).inode_at(i) == old(fs).inode_at(i)
            },
    {
        let d = match *self {
            File::Directory(d) => d,
            _ => {
                return Err(FsError::NotADirectory);
            },
        };
        if d >= fs.dir_count() {
            return Err(FsError::NotADirectory);
        }
        fs.dir_insert(d, name, file);
        Ok(())
    }

    fn remove(&mut self, fs: &mut Fs, name: &String) -> (r: Result<(), FsError>)
        ensures
            *final(self) == *old(self),
            !old(self).is_dir_in(*old(fs)) ==> r == Err::<(), FsError>(FsError::NotADirectory)
                && *final(fs) == *old(fs),
            old(self).is_dir_in(*old(fs)) ==> {
                let d = (*old(self))->Directory_0 as int;
                &&& r == Ok::<(), FsError>(())
                &&& final(fs).dir_map(d) == old(fs).dir_map(d).remove(name@)
                &&& final(fs).n_dirs() == old(fs).n_dirs()
                &&& forall|e: int|
                    0 <= e < old(fs).n_dirs() && e != d ==> final(fs).dir_map(e) == old(
                        fs,
                    ).dir_map(e)
                &&& final(fs).n_inodes() == old(fs).n_inodes()
                &&& forall|i: int|
                    0 <= i < old(fs).n_inodes() ==> final(fs).inode_at(i) == old(fs).inode_at(i)
            },
    {
        let d = match *self {
            File::Directory(d) => d,
            _ => {
                return Err(FsError::NotADirectory);
            },
        };
        if d >= fs.dir_count() {
            return Err(FsError::NotADirectory);
        }
        fs.dir_remove(d, name);
        Ok(())
    }

    fn get(&self, fs: &Fs, name: &String) -> (r: Result<Option<File>, FsError>)
        ensures
            !self.is_dir_in(*fs) ==> r == Err::<Option<File>, FsError>(FsError::NotADirectory),
            self.is_dir_in(*fs) ==> r == Ok::<Option<File>, FsError>(
                if fs.dir_map((*self)->Directory_0 as int).contains_key(name@) {
                    Some(fs.dir_map((*self)->Directory_0 as int)[name@])
                } else {
                    None
                },
            ),
    {
        let d = match *self {
            File::Directory(d) => d,
            _ => {
                return Err(FsError::NotADirectory);
            },
        };
        if d >= fs.dir_count() {
            return Err(FsError::NotADirectory);
        }
        Ok(fs.dir_get(d, name))
    }
}

/// Directory uniqueness: a name maps to exactly one file. A second insert
/// under the same name replaces the first file, and a remove of the name
/// leaves it absent.
pub proof fn lemma_directory_uniqueness(
    m: Map<Seq<char>, File>,
    name: Seq<char>,
    f1: File,
    f2: File,
)
    ensures
        m.insert(name, f1).insert(name, f2).contains_key(name),
        m.insert(name, f1).insert(name, f2)[name] == f2,
        !m.insert(name, f1).insert(name, f2).remove(name).contains_key(name),
{
}

} // verus!
