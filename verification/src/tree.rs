//! What a comparison is to find: the plan for a source tree, given what
//! exists on the target side.

use vstd::prelude::*;
use crate::differ::{is_older, DirEntryView};
use crate::plan::{lemma_followed_by_assoc, lemma_followed_by_empty, Plan};

verus! {

/// An entry of the source tree: a file with the time of its last
/// modification, or a directory with its entries in the order in which a
/// listing reports them.
pub enum SourceNode {
    File { name: Seq<char>, modified: int },
    Directory { name: Seq<char>, entries: Seq<SourceNode> },
}

impl SourceNode {
    /// The entry's name within its directory.
    pub open spec fn name(self) -> Seq<char> {
        match self {
            SourceNode::File { name, .. } => name,
            SourceNode::Directory { name, .. } => name,
        }
    }

    /// What a listing reports of this entry.
    pub open spec fn listed(self) -> DirEntryView {
        DirEntryView { name: self.name(), is_directory: self is Directory }
    }
}

/// What the listing of a directory with the entries `entries` reports.
pub open spec fn listing(entries: Seq<SourceNode>) -> Seq<DirEntryView> {
    Seq::new(entries.len(), |i: int| entries[i].listed())
}

/// The target side: the paths at which something exists, each with the time
/// of its last modification.
pub type Target = Map<Seq<Seq<char>>, int>;

/// Whether a file modified at `modified` is to be copied to `path`: it is
/// if nothing exists at `path`, or what exists there is strictly older.
pub open spec fn needs_copy(existing: Target, path: Seq<Seq<char>>, modified: int) -> bool {
    !existing.contains_key(path) || is_older(existing[path], modified)
}

/// The plan for the entries `entries` of the source directory `source`,
/// whose counterpart is the directory `target`.
pub open spec fn diff_entries(
    entries: Seq<SourceNode>,
    source: Seq<Seq<char>>,
    target: Seq<Seq<char>>,
    existing: Target,
    excluded: Set<Seq<Seq<char>>>,
) -> Plan
    decreases entries,
{
    if entries.len() == 0 {
        Plan::empty()
    } else {
        diff_entry(entries[0], source, target, existing, excluded).followed_by(
            diff_entries(entries.subrange(1, entries.len() as int), source, target, existing, excluded),
        )
    }
}

/// The plan for the entry `node` of the source directory `source`, whose
/// counterpart is the directory `target`.
///
/// A file is copied if its counterpart is missing or strictly older. A
/// directory that is excluded contributes nothing. Any other directory is
/// created if its counterpart is missing, and its entries follow.
pub open spec fn diff_entry(
    node: SourceNode,
    source: Seq<Seq<char>>,
    target: Seq<Seq<char>>,
    existing: Target,
    excluded: Set<Seq<Seq<char>>>,
) -> Plan
    decreases node,
{
    let from = source.push(node.name());
    let to = target.push(node.name());
    match node {
        SourceNode::File { modified, .. } => {
            if needs_copy(existing, to, modified) {
                Plan::empty().with_file(from, to)
            } else {
                Plan::empty()
            }
        },
        SourceNode::Directory { entries, .. } => {
            if excluded.contains(from) {
                Plan::empty()
            } else {
                let below = diff_entries(entries, from, to, existing, excluded);
                if existing.contains_key(to) {
                    below
                } else {
                    Plan::empty().with_directory(to).followed_by(below)
                }
            }
        },
    }
}

/// The plan for some entries and one more is the plan for those entries
/// followed by the plan for that one.
pub proof fn lemma_diff_one_more(
    entries: Seq<SourceNode>,
    last: SourceNode,
    source: Seq<Seq<char>>,
    target: Seq<Seq<char>>,
    existing: Target,
    excluded: Set<Seq<Seq<char>>>,
)
    ensures
        diff_entries(entries.push(last), source, target, existing, excluded) == diff_entries(
            entries,
            source,
            target,
            existing,
            excluded,
        ).followed_by(diff_entry(last, source, target, existing, excluded)),
    decreases entries.len(),
{
    let all = entries.push(last);
    let last_plan = diff_entry(last, source, target, existing, excluded);
    if entries.len() == 0 {
        assert(all.subrange(1, all.len() as int) =~= entries);
        lemma_followed_by_empty(last_plan);
    } else {
        let rest = entries.subrange(1, entries.len() as int);
        assert(all.subrange(1, all.len() as int) =~= rest.push(last));
        lemma_diff_one_more(rest, last, source, target, existing, excluded);
        lemma_followed_by_assoc(
            diff_entry(entries[0], source, target, existing, excluded),
            diff_entries(rest, source, target, existing, excluded),
            last_plan,
        );
    }
}

} // verus!
