//! The plan that a comparison produces: the directories to create and the
//! files to copy, each in the order in which the comparison met them.

use vstd::prelude::*;
use crate::path::TreePath;

verus! {

/// One pending file copy, as a pair of path models.
pub struct FileCopy {
    pub source: Seq<Seq<char>>,
    pub target: Seq<Seq<char>>,
}

/// What a plan is: the files to copy and the directories to create.
pub struct Plan {
    pub files: Seq<FileCopy>,
    pub directories: Seq<Seq<Seq<char>>>,
}

impl Plan {
    /// The plan that asks for nothing.
    pub open spec fn empty() -> Plan {
        Plan { files: Seq::empty(), directories: Seq::empty() }
    }

    /// Whether the plan asks for nothing.
    pub open spec fn is_empty(self) -> bool {
        self.files.len() == 0 && self.directories.len() == 0
    }

    /// This plan followed by one more file copy.
    pub open spec fn with_file(self, source: Seq<Seq<char>>, target: Seq<Seq<char>>) -> Plan {
        Plan { files: self.files.push(FileCopy { source, target }), directories: self.directories }
    }

    /// This plan followed by one more directory to create.
    pub open spec fn with_directory(self, path: Seq<Seq<char>>) -> Plan {
        Plan { files: self.files, directories: self.directories.push(path) }
    }

    /// This plan followed by all of `later`.
    pub open spec fn followed_by(self, later: Plan) -> Plan {
        Plan {
            files: self.files + later.files,
            directories: self.directories + later.directories,
        }
    }
}

/// Joining plans is associative.
pub proof fn lemma_followed_by_assoc(a: Plan, b: Plan, c: Plan)
    ensures
        a.followed_by(b).followed_by(c) == a.followed_by(b.followed_by(c)),
{
    let left = a.followed_by(b).followed_by(c);
    let right = a.followed_by(b.followed_by(c));
    assert(left.files =~= right.files);
    assert(left.directories =~= right.directories);
}

/// Joining a plan with the empty plan, on either side, changes nothing.
pub proof fn lemma_followed_by_empty(a: Plan)
    ensures
        a.followed_by(Plan::empty()) == a,
        Plan::empty().followed_by(a) == a,
{
    assert(a.followed_by(Plan::empty()).files =~= a.files);
    assert(a.followed_by(Plan::empty()).directories =~= a.directories);
    assert(Plan::empty().followed_by(a).files =~= a.files);
    assert(Plan::empty().followed_by(a).directories =~= a.directories);
}

/// Joining a plan with the plan of one file copy adds that copy.
pub proof fn lemma_followed_by_one_file(a: Plan, source: Seq<Seq<char>>, target: Seq<Seq<char>>)
    ensures
        a.followed_by(Plan::empty().with_file(source, target)) == a.with_file(source, target),
{
    let joined = a.followed_by(Plan::empty().with_file(source, target));
    assert(joined.files =~= a.with_file(source, target).files);
    assert(joined.directories =~= a.directories);
}

/// Joining a plan with the plan of one directory adds that directory.
pub proof fn lemma_followed_by_one_directory(a: Plan, path: Seq<Seq<char>>)
    ensures
        a.followed_by(Plan::empty().with_directory(path)) == a.with_directory(path),
{
    let joined = a.followed_by(Plan::empty().with_directory(path));
    assert(joined.directories =~= a.with_directory(path).directories);
    assert(joined.files =~= a.files);
}

/// One pending file copy: `source` is to be copied over `target`.
#[derive(Debug)]
pub struct FileToCopy {
    pub source: TreePath,
    pub target: TreePath,
}

impl View for FileToCopy {
    type V = FileCopy;

    open spec fn view(&self) -> FileCopy {
        FileCopy { source: self.source@, target: self.target@ }
    }
}

impl PartialEq for FileToCopy {
    fn eq(&self, other: &FileToCopy) -> (same: bool) {
        self.source == other.source && self.target == other.target
    }
}

impl Eq for FileToCopy {}

impl vstd::std_specs::cmp::PartialEqSpecImpl for FileToCopy {
    open spec fn obeys_eq_spec() -> bool {
        true
    }

    open spec fn eq_spec(&self, other: &FileToCopy) -> bool {
        self@ == other@
    }
}

impl Clone for FileToCopy {
    fn clone(&self) -> (copy: FileToCopy)
        ensures
            copy@ == self@,
    {
        FileToCopy { source: self.source.clone(), target: self.target.clone() }
    }
}

/// One pending directory creation: the directory `path` on the target side.
#[derive(Debug)]
pub struct DirectoryToCreate {
    pub path: TreePath,
}

impl View for DirectoryToCreate {
    type V = Seq<Seq<char>>;

    open spec fn view(&self) -> Seq<Seq<char>> {
        self.path@
    }
}

impl PartialEq for DirectoryToCreate {
    fn eq(&self, other: &DirectoryToCreate) -> (same: bool) {
        self.path == other.path
    }
}

impl Eq for DirectoryToCreate {}

impl vstd::std_specs::cmp::PartialEqSpecImpl for DirectoryToCreate {
    open spec fn obeys_eq_spec() -> bool {
        true
    }

    open spec fn eq_spec(&self, other: &DirectoryToCreate) -> bool {
        self@ == other@
    }
}

impl Clone for DirectoryToCreate {
    fn clone(&self) -> (copy: DirectoryToCreate)
        ensures
            copy@ == self@,
    {
        DirectoryToCreate { path: self.path.clone() }
    }
}

/// The files to copy and the directories to create, in the order in which
/// the comparison met them.
#[derive(Debug)]
pub struct FilesAndDirectories {
    pub files: Vec<FileToCopy>,
    pub directories: Vec<DirectoryToCreate>,
}

impl View for FilesAndDirectories {
    type V = Plan;

    open spec fn view(&self) -> Plan {
        Plan {
            files: Seq::new(self.files@.len(), |i: int| self.files@[i]@),
            directories: Seq::new(self.directories@.len(), |i: int| self.directories@[i]@),
        }
    }
}

impl PartialEq for FilesAndDirectories {
    fn eq(&self, other: &FilesAndDirectories) -> (same: bool) {
        if self.files.len() != other.files.len()
            || self.directories.len() != other.directories.len() {
            assert(self@.files.len() != other@.files.len() || self@.directories.len()
                != other@.directories.len());
            return false;
        }
        let mut i: usize = 0;
        while i < self.files.len()
            invariant
                i <= self.files.len(),
                self.files.len() == other.files.len(),
                forall|k: int| 0 <= k < i ==> self@.files[k] == other@.files[k],
            decreases self.files.len() - i,
        {
            if self.files[i] != other.files[i] {
                assert(self@.files[i as int] != other@.files[i as int]);
                return false;
            }
            i += 1;
        }
        let mut j: usize = 0;
        while j < self.directories.len()
            invariant
                j <= self.directories.len(),
                self.directories.len() == other.directories.len(),
                self@.files =~= other@.files,
                forall|k: int| 0 <= k < j ==> self@.directories[k] == other@.directories[k],
            decreases self.directories.len() - j,
        {
            if self.directories[j] != other.directories[j] {
                assert(self@.directories[j as int] != other@.directories[j as int]);
                return false;
            }
            j += 1;
        }
        assert(self@.directories =~= other@.directories);
        true
    }
}

impl Eq for FilesAndDirectories {}

impl vstd::std_specs::cmp::PartialEqSpecImpl for FilesAndDirectories {
    open spec fn obeys_eq_spec() -> bool {
        true
    }

    open spec fn eq_spec(&self, other: &FilesAndDirectories) -> bool {
        self@ == other@
    }
}

impl FilesAndDirectories {
    /// The plan that asks for nothing.
    pub fn new() -> (plan: FilesAndDirectories)
        ensures
            plan@ == Plan::empty(),
    {
        let plan = FilesAndDirectories { files: Vec::new(), directories: Vec::new() };
        assert(plan@.files =~= Seq::<FileCopy>::empty());
        assert(plan@.directories =~= Seq::<Seq<Seq<char>>>::empty());
        plan
    }

    /// Whether the plan asks for nothing.
    pub fn is_empty(&self) -> (empty: bool)
        ensures
            empty == self@.is_empty(),
    {
        self.files.len() == 0 && self.directories.len() == 0
    }

    /// Adds the copy of `source` over `target` at the end of the files.
    pub fn push_file(&mut self, source: TreePath, target: TreePath)
        ensures
            final(self)@ == old(self)@.with_file(source@, target@),
    {
        self.files.push(FileToCopy { source, target });
        assert(self@.files =~= old(self)@.files.push(FileCopy { source: source@, target: target@ }));
        assert(self@.directories =~= old(self)@.directories);
    }

    /// Adds the creation of `path` at the end of the directories.
    pub fn push_directory(&mut self, path: TreePath)
        ensures
            final(self)@ == old(self)@.with_directory(path@),
    {
        self.directories.push(DirectoryToCreate { path });
        assert(self@.directories =~= old(self)@.directories.push(path@));
        assert(self@.files =~= old(self)@.files);
    }
}

} // verus!
