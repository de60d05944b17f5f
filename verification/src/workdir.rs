//! The directory in which the converted images wait for their turn.
//!
//! A `TempDir` is the name of that directory. Making the directory, and
//! removing it with all it holds when the work is over, is the caller's part.

use crate::bytes::{append, copy};
use crate::names::{stamped_name, unique_name};
use vstd::prelude::*;

verus! {

/// The path of `name` inside the directory `dir`: the two joined by `/`.
pub open spec fn child_path(dir: Seq<u8>, name: Seq<u8>) -> Seq<u8> {
    dir + seq![47u8] + name
}

/// The location of a working directory.
pub struct TempDir {
    path: Vec<u8>,
}

impl View for TempDir {
    type V = Seq<u8>;

    closed spec fn view(&self) -> Seq<u8> {
        self.path@
    }
}

impl TempDir {
    /// A place for a working directory inside `parent`, named from `prefix`
    /// and a time stamp. The caller asks for another one, with a later stamp,
    /// as long as something exists at the path.
    pub fn new(parent: &[u8], prefix: &[u8], stamp: u32) -> (dir: Self)
        ensures
            dir@ == child_path(parent@, stamped_name(prefix@, stamp)),
    {
        let name = unique_name(prefix, stamp);
        let mut path = copy(parent);
        path.push(47u8);
        append(&mut path, name.as_slice());
        assert(path@ =~= child_path(parent@, stamped_name(prefix@, stamp)));
        TempDir { path }
    }

    /// The path of the directory.
    pub fn path(&self) -> (path: &[u8])
        ensures
            path@ == self@,
    {
        self.path.as_slice()
    }

    /// The path of the file called `name` in the directory.
    pub fn join(&self, name: &[u8]) -> (path: Vec<u8>)
        ensures
            path@ == child_path(self@, name@),
    {
        let mut path = copy(self.path.as_slice());
        path.push(47u8);
        append(&mut path, name);
        assert(path@ =~= child_path(self@, name@));
        path
    }
}

} // verus!
