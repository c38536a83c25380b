//! A source tree and a target side held in memory, and their comparison in
//! one go.

use vstd::prelude::*;
use crate::exclusion::ExclusionSet;
use crate::path::TreePath;
use crate::plan::{
    lemma_followed_by_assoc, lemma_followed_by_empty, lemma_followed_by_one_directory,
    lemma_followed_by_one_file, FilesAndDirectories, Plan,
};
use crate::tree::{diff_entries, diff_entry, lemma_diff_one_more, SourceNode, Target};

verus! {

/// An entry of a source tree held in memory.
#[derive(Debug)]
pub enum TreeEntry {
    /// A file, with the time of its last modification.
    File { name: String, modified: i128 },
    /// A directory, with its entries in listing order.
    Directory { name: String, entries: Vec<TreeEntry> },
}

/// The models of the entries `entries`, in their order.
pub open spec fn models(entries: Seq<TreeEntry>) -> Seq<SourceNode>
    decreases entries, 1nat,
{
    Seq::new(
        entries.len(),
        |i: int|
            if 0 <= i < entries.len() {
                model(entries[i])
            } else {
                arbitrary()
            },
    )
}

/// The model of the entry `entry`.
pub open spec fn model(entry: TreeEntry) -> SourceNode
    decreases entry, 0nat,
{
    match entry {
        TreeEntry::File { name, modified } => SourceNode::File {
            name: name@,
            modified: modified as int,
        },
        TreeEntry::Directory { name, entries } => SourceNode::Directory {
            name: name@,
            entries: models(entries@),
        },
    }
}

impl View for TreeEntry {
    type V = SourceNode;

    open spec fn view(&self) -> SourceNode {
        model(*self)
    }
}

/// What the entries in `entries` say exists, and when it was modified. Of
/// two entries for one path the later one counts.
pub open spec fn index_of(entries: Seq<(TreePath, i128)>) -> Target
    decreases entries.len(),
{
    if entries.len() == 0 {
        Map::empty()
    } else {
        index_of(entries.drop_last()).insert(entries.last().0@, entries.last().1 as int)
    }
}

/// A target side held in memory: the paths at which something exists, each
/// with the time of its last modification.
pub struct TargetIndex {
    entries: Vec<(TreePath, i128)>,
}

impl View for TargetIndex {
    type V = Target;

    closed spec fn view(&self) -> Target {
        index_of(self.entries@)
    }
}

impl TargetIndex {
    /// The target side on which nothing exists.
    pub fn new() -> (index: TargetIndex)
        ensures
            index@ == Map::<Seq<Seq<char>>, int>::empty(),
    {
        TargetIndex { entries: Vec::new() }
    }

    /// Records that something exists at `path`, last modified at
    /// `modified`.
    pub fn insert(&mut self, path: TreePath, modified: i128)
        ensures
            final(self)@ == old(self)@.insert(path@, modified as int),
    {
        self.entries.push((path, modified));
        assert(self.entries@.drop_last() =~= old(self).entries@);
    }

    /// When what exists at `path` was last modified; `None` if nothing
    /// exists there.
    pub fn modified(&self, path: &TreePath) -> (found: Option<i128>)
        ensures
            match found {
                Some(time) => self@.contains_key(path@) && self@[path@] == time,
                None => !self@.contains_key(path@),
            },
    {
        let mut i: usize = self.entries.len();
        assert(self.entries@.take(i as int) =~= self.entries@);
        while i > 0
            invariant
                i <= self.entries.len(),
                self@.contains_key(path@) == index_of(self.entries@.take(i as int)).contains_key(
                    path@,
                ),
                self@.contains_key(path@) ==> self@[path@] == index_of(
                    self.entries@.take(i as int),
                )[path@],
            decreases i,
        {
            i -= 1;
            proof {
                assert(self.entries@.take(i as int + 1).drop_last() =~= self.entries@.take(
                    i as int,
                ));
            }
            if self.entries[i].0 == *path {
                return Some(self.entries[i].1);
            }
        }
        None
    }
}

/// Compares the source directory `source`, which holds the entries
/// `entries`, with the directory `target`, of whose side `existing` says
/// what exists, and leaves out the directories in `excluded`.
pub fn get_files_and_directories(
    entries: &Vec<TreeEntry>,
    source: &TreePath,
    target: &TreePath,
    existing: &TargetIndex,
    excluded: &ExclusionSet,
) -> (plan: FilesAndDirectories)
    ensures
        plan@ == diff_entries(models(entries@), source@, target@, existing@, excluded@),
{
    let mut plan = FilesAndDirectories::new();
    compare_entries(entries, source, target, existing, excluded, &mut plan);
    proof {
        lemma_followed_by_empty(
            diff_entries(models(entries@), source@, target@, existing@, excluded@),
        );
    }
    plan
}

/// Adds to `plan` what the entries `entries` of the directory `source`
/// call for.
fn compare_entries(
    entries: &Vec<TreeEntry>,
    source: &TreePath,
    target: &TreePath,
    existing: &TargetIndex,
    excluded: &ExclusionSet,
    plan: &mut FilesAndDirectories,
)
    ensures
        final(plan)@ == old(plan)@.followed_by(
            diff_entries(models(entries@), source@, target@, existing@, excluded@),
        ),
    decreases entries, 1nat,
{
    let mut i: usize = 0;
    proof {
        assert(models(entries@.take(0)) =~= Seq::<SourceNode>::empty());
        lemma_followed_by_empty(plan@);
    }
    while i < entries.len()
        invariant
            i <= entries.len(),
            plan@ == old(plan)@.followed_by(
                diff_entries(
                    models(entries@.take(i as int)),
                    source@,
                    target@,
                    existing@,
                    excluded@,
                ),
            ),
        decreases entries.len() - i,
    {
        let ghost before = models(entries@.take(i as int));
        compare_entry(&entries[i], source, target, existing, excluded, plan);
        proof {
            assert(models(entries@.take(i as int + 1)) =~= before.push(model(entries@[i as int])));
            lemma_diff_one_more(
                before,
                model(entries@[i as int]),
                source@,
                target@,
                existing@,
                excluded@,
            );
            lemma_followed_by_assoc(
                old(plan)@,
                diff_entries(before, source@, target@, existing@, excluded@),
                diff_entry(model(entries@[i as int]), source@, target@, existing@, excluded@),
            );
        }
        i += 1;
    }
    assert(entries@.take(i as int) =~= entries@);
}

/// Adds to `plan` what the entry `entry` of the directory `source` calls
/// for.
fn compare_entry(
    entry: &TreeEntry,
    source: &TreePath,
    target: &TreePath,
    existing: &TargetIndex,
    excluded: &ExclusionSet,
    plan: &mut FilesAndDirectories,
)
    ensures
        final(plan)@ == old(plan)@.followed_by(
            diff_entry(entry@, source@, target@, existing@, excluded@),
        ),
    decreases entry, 0nat,
{
    match entry {
        TreeEntry::File { name, modified } => {
            let to = target.child(name);
            let copy = match existing.modified(&to) {
                Some(time) => time < *modified,
                None => true,
            };
            if copy {
                let from = source.child(name);
                proof {
                    lemma_followed_by_one_file(plan@, from@, to@);
                }
                plan.push_file(from, to);
            } else {
                proof {
                    lemma_followed_by_empty(plan@);
                }
            }
        },
        TreeEntry::Directory { name, entries } => {
            let from = source.child(name);
            if excluded.contains(&from) {
                proof {
                    lemma_followed_by_empty(plan@);
                }
            } else {
                let to = target.child(name);
                let ghost below = diff_entries(
                    models(entries@),
                    from@,
                    to@,
                    existing@,
                    excluded@,
                );
                if existing.modified(&to).is_none() {
                    proof {
                        lemma_followed_by_one_directory(plan@, to@);
                        lemma_followed_by_assoc(plan@, Plan::empty().with_directory(to@), below);
                    }
                    plan.push_directory(to.clone());
                }
                compare_entries(entries, &from, &to, existing, excluded, plan);
            }
        },
    }
}

} // verus!
