//! Which entries of a source tree a comparison comes to, and that the plan
//! holds exactly what those entries call for.

use vstd::prelude::*;
use crate::plan::{FileCopy, Plan};
use crate::tree::{diff_entries, diff_entry, needs_copy, SourceNode, Target};

verus! {

/// Whether the comparison of the entries `entries` of the directory
/// `source` comes to a file modified at `modified` when it follows the
/// names `below` down from `source`. It does not descend into an excluded
/// directory.
pub open spec fn reaches_file(
    entries: Seq<SourceNode>,
    source: Seq<Seq<char>>,
    excluded: Set<Seq<Seq<char>>>,
    below: Seq<Seq<char>>,
    modified: int,
) -> bool
    decreases below.len(), 1nat,
{
    below.len() > 0 && exists|i: int|
        #![trigger entries[i]]
        0 <= i < entries.len() && file_under(entries[i], source, excluded, below, modified)
}

/// Whether `node`, an entry of the directory `source`, is or holds the file
/// that `reaches_file` speaks of.
pub open spec fn file_under(
    node: SourceNode,
    source: Seq<Seq<char>>,
    excluded: Set<Seq<Seq<char>>>,
    below: Seq<Seq<char>>,
    modified: int,
) -> bool
    decreases below.len(), 0nat,
{
    below.len() > 0 && node.name() == below[0] && match node {
        SourceNode::File { modified: m, .. } => below.len() == 1 && m == modified,
        SourceNode::Directory { entries, .. } => {
            &&& below.len() > 1
            &&& !excluded.contains(source.push(below[0]))
            &&& reaches_file(entries, source.push(below[0]), excluded, below.skip(1), modified)
        },
    }
}

/// Whether the comparison of the entries `entries` of the directory
/// `source` descends into a directory when it follows the names `below`
/// down from `source`.
pub open spec fn reaches_directory(
    entries: Seq<SourceNode>,
    source: Seq<Seq<char>>,
    excluded: Set<Seq<Seq<char>>>,
    below: Seq<Seq<char>>,
) -> bool
    decreases below.len(), 1nat,
{
    below.len() > 0 && exists|i: int|
        #![trigger entries[i]]
        0 <= i < entries.len() && directory_under(entries[i], source, excluded, below)
}

/// Whether `node`, an entry of the directory `source`, is or holds the
/// directory that `reaches_directory` speaks of.
pub open spec fn directory_under(
    node: SourceNode,
    source: Seq<Seq<char>>,
    excluded: Set<Seq<Seq<char>>>,
    below: Seq<Seq<char>>,
) -> bool
    decreases below.len(), 0nat,
{
    below.len() > 0 && node.name() == below[0] && match node {
        SourceNode::File { .. } => false,
        SourceNode::Directory { entries, .. } => {
            &&& !excluded.contains(source.push(below[0]))
            &&& (below.len() == 1 || reaches_directory(
                entries,
                source.push(below[0]),
                excluded,
                below.skip(1),
            ))
        },
    }
}

/// Whether no directory of the tree holds two entries of one name.
pub open spec fn distinct_names(entries: Seq<SourceNode>) -> bool
    decreases entries, 1nat,
{
    &&& forall|i: int, j: int|
        0 <= i < j < entries.len() ==> #[trigger] entries[i].name() != #[trigger] entries[j].name()
    &&& forall|i: int| #![trigger entries[i]] 0 <= i < entries.len() ==> distinct_names_in(entries[i])
}

/// Whether no directory of the tree under `node` holds two entries of one
/// name.
pub open spec fn distinct_names_in(node: SourceNode) -> bool
    decreases node, 0nat,
{
    match node {
        SourceNode::File { .. } => true,
        SourceNode::Directory { entries, .. } => distinct_names(entries),
    }
}

/// The entry through which the comparison comes to a file.
proof fn lemma_entry_of_reached_file(
    entries: Seq<SourceNode>,
    source: Seq<Seq<char>>,
    excluded: Set<Seq<Seq<char>>>,
    below: Seq<Seq<char>>,
    modified: int,
) -> (i: int)
    requires
        reaches_file(entries, source, excluded, below, modified),
    ensures
        0 <= i < entries.len(),
        file_under(entries[i], source, excluded, below, modified),
{
    choose|i: int|
        #![trigger entries[i]]
        0 <= i < entries.len() && file_under(entries[i], source, excluded, below, modified)
}

/// The entry through which the comparison descends into a directory.
proof fn lemma_entry_of_reached_directory(
    entries: Seq<SourceNode>,
    source: Seq<Seq<char>>,
    excluded: Set<Seq<Seq<char>>>,
    below: Seq<Seq<char>>,
) -> (i: int)
    requires
        reaches_directory(entries, source, excluded, below),
    ensures
        0 <= i < entries.len(),
        directory_under(entries[i], source, excluded, below),
{
    choose|i: int|
        #![trigger entries[i]]
        0 <= i < entries.len() && directory_under(entries[i], source, excluded, below)
}

/// What is in two sequences joined is what is in either.
proof fn lemma_joined_contains<T>(a: Seq<T>, b: Seq<T>, x: T)
    ensures
        (a + b).contains(x) <==> (a.contains(x) || b.contains(x)),
{
    if a.contains(x) {
        let i = choose|i: int| 0 <= i < a.len() && a[i] == x;
        assert((a + b)[i] == x);
    }
    if b.contains(x) {
        let i = choose|i: int| 0 <= i < b.len() && b[i] == x;
        assert((a + b)[a.len() + i] == x);
    }
    if (a + b).contains(x) {
        let i = choose|i: int| 0 <= i < (a + b).len() && (a + b)[i] == x;
        if i < a.len() {
            assert(a[i] == x);
        } else {
            assert(b[i - a.len()] == x);
        }
    }
}

/// A file planned for some entries is planned for one of them.
proof fn lemma_file_of_some_entry(
    entries: Seq<SourceNode>,
    source: Seq<Seq<char>>,
    target: Seq<Seq<char>>,
    existing: Target,
    excluded: Set<Seq<Seq<char>>>,
    file: FileCopy,
) -> (i: int)
    requires
        diff_entries(entries, source, target, existing, excluded).files.contains(file),
    ensures
        0 <= i < entries.len(),
        diff_entry(entries[i], source, target, existing, excluded).files.contains(file),
    decreases entries.len(),
{
    assert(entries.len() > 0);
    let rest = entries.subrange(1, entries.len() as int);
    let first_plan = diff_entry(entries[0], source, target, existing, excluded);
    let rest_plan = diff_entries(rest, source, target, existing, excluded);
    lemma_joined_contains(first_plan.files, rest_plan.files, file);
    if first_plan.files.contains(file) {
        0
    } else {
        let i = lemma_file_of_some_entry(rest, source, target, existing, excluded, file);
        assert(rest[i] == entries[i + 1]);
        i + 1
    }
}

/// A file planned for one of some entries is planned for them.
proof fn lemma_file_of_entry_included(
    entries: Seq<SourceNode>,
    i: int,
    source: Seq<Seq<char>>,
    target: Seq<Seq<char>>,
    existing: Target,
    excluded: Set<Seq<Seq<char>>>,
    file: FileCopy,
)
    requires
        0 <= i < entries.len(),
        diff_entry(entries[i], source, target, existing, excluded).files.contains(file),
    ensures
        diff_entries(entries, source, target, existing, excluded).files.contains(file),
    decreases entries.len(),
{
    let rest = entries.subrange(1, entries.len() as int);
    let first_plan = diff_entry(entries[0], source, target, existing, excluded);
    let rest_plan = diff_entries(rest, source, target, existing, excluded);
    lemma_joined_contains(first_plan.files, rest_plan.files, file);
    if i > 0 {
        assert(rest[i - 1] == entries[i]);
        lemma_file_of_entry_included(rest, i - 1, source, target, existing, excluded, file);
    }
}

/// A directory planned for some entries is planned for one of them.
proof fn lemma_directory_of_some_entry(
    entries: Seq<SourceNode>,
    source: Seq<Seq<char>>,
    target: Seq<Seq<char>>,
    existing: Target,
    excluded: Set<Seq<Seq<char>>>,
    directory: Seq<Seq<char>>,
) -> (i: int)
    requires
        diff_entries(entries, source, target, existing, excluded).directories.contains(directory),
    ensures
        0 <= i < entries.len(),
        diff_entry(entries[i], source, target, existing, excluded).directories.contains(directory),
    decreases entries.len(),
{
    assert(entries.len() > 0);
    let rest = entries.subrange(1, entries.len() as int);
    let first_plan = diff_entry(entries[0], source, target, existing, excluded);
    let rest_plan = diff_entries(rest, source, target, existing, excluded);
    lemma_joined_contains(first_plan.directories, rest_plan.directories, directory);
    if first_plan.directories.contains(directory) {
        0
    } else {
        let i = lemma_directory_of_some_entry(rest, source, target, existing, excluded, directory);
        assert(rest[i] == entries[i + 1]);
        i + 1
    }
}

/// A directory planned for one of some entries is planned for them.
proof fn lemma_directory_of_entry_included(
    entries: Seq<SourceNode>,
    i: int,
    source: Seq<Seq<char>>,
    target: Seq<Seq<char>>,
    existing: Target,
    excluded: Set<Seq<Seq<char>>>,
    directory: Seq<Seq<char>>,
)
    requires
        0 <= i < entries.len(),
        diff_entry(entries[i], source, target, existing, excluded).directories.contains(directory),
    ensures
        diff_entries(entries, source, target, existing, excluded).directories.contains(directory),
    decreases entries.len(),
{
    let rest = entries.subrange(1, entries.len() as int);
    let first_plan = diff_entry(entries[0], source, target, existing, excluded);
    let rest_plan = diff_entries(rest, source, target, existing, excluded);
    lemma_joined_contains(first_plan.directories, rest_plan.directories, directory);
    if i > 0 {
        assert(rest[i - 1] == entries[i]);
        lemma_directory_of_entry_included(rest, i - 1, source, target, existing, excluded, directory);
    }
}

/// A file that the comparison comes to is planned for copy if its
/// counterpart is missing or strictly older.
pub proof fn lemma_reached_file_is_planned(
    entries: Seq<SourceNode>,
    source: Seq<Seq<char>>,
    target: Seq<Seq<char>>,
    existing: Target,
    excluded: Set<Seq<Seq<char>>>,
    below: Seq<Seq<char>>,
    modified: int,
)
    requires
        reaches_file(entries, source, excluded, below, modified),
        needs_copy(existing, target + below, modified),
    ensures
        diff_entries(entries, source, target, existing, excluded).files.contains(
            FileCopy { source: source + below, target: target + below },
        ),
    decreases below.len(),
{
    let i = lemma_entry_of_reached_file(entries, source, excluded, below, modified);
    let node = entries[i];
    let from = source.push(node.name());
    let to = target.push(node.name());
    let file = FileCopy { source: source + below, target: target + below };
    let node_plan = diff_entry(node, source, target, existing, excluded);
    match node {
        SourceNode::File { .. } => {
            assert(source + below =~= from);
            assert(target + below =~= to);
            assert(node_plan.files[0] == file);
        },
        SourceNode::Directory { entries: inner, .. } => {
            assert(from + below.skip(1) =~= source + below);
            assert(to + below.skip(1) =~= target + below);
            lemma_reached_file_is_planned(
                inner,
                from,
                to,
                existing,
                excluded,
                below.skip(1),
                modified,
            );
            let inner_plan = diff_entries(inner, from, to, existing, excluded);
            lemma_joined_contains(Seq::<FileCopy>::empty(), inner_plan.files, file);
        },
    }
    lemma_file_of_entry_included(entries, i, source, target, existing, excluded, file);
}

/// A file planned for copy is one that the comparison comes to: its target
/// mirrors its source, and its counterpart is missing or strictly older.
pub proof fn lemma_planned_file_is_reached(
    entries: Seq<SourceNode>,
    source: Seq<Seq<char>>,
    target: Seq<Seq<char>>,
    existing: Target,
    excluded: Set<Seq<Seq<char>>>,
    file: FileCopy,
) -> (found: (Seq<Seq<char>>, int))
    requires
        diff_entries(entries, source, target, existing, excluded).files.contains(file),
    ensures
        reaches_file(entries, source, excluded, found.0, found.1),
        file == (FileCopy { source: source + found.0, target: target + found.0 }),
        needs_copy(existing, target + found.0, found.1),
    decreases entries, 1nat,
{
    let i = lemma_file_of_some_entry(entries, source, target, existing, excluded, file);
    let found = lemma_planned_file_under_entry(
        entries[i],
        source,
        target,
        existing,
        excluded,
        file,
    );
    assert(file_under(entries[i], source, excluded, found.0, found.1));
    found
}

/// A file planned for an entry is or lies under that entry.
proof fn lemma_planned_file_under_entry(
    node: SourceNode,
    source: Seq<Seq<char>>,
    target: Seq<Seq<char>>,
    existing: Target,
    excluded: Set<Seq<Seq<char>>>,
    file: FileCopy,
) -> (found: (Seq<Seq<char>>, int))
    requires
        diff_entry(node, source, target, existing, excluded).files.contains(file),
    ensures
        file_under(node, source, excluded, found.0, found.1),
        file == (FileCopy { source: source + found.0, target: target + found.0 }),
        needs_copy(existing, target + found.0, found.1),
    decreases node, 0nat,
{
    let from = source.push(node.name());
    let to = target.push(node.name());
    match node {
        SourceNode::File { name, modified } => {
            let below = seq![name];
            assert(source + below =~= from);
            assert(target + below =~= to);
            (below, modified)
        },
        SourceNode::Directory { name, entries: inner } => {
            let inner_plan = diff_entries(inner, from, to, existing, excluded);
            lemma_joined_contains(Seq::<FileCopy>::empty(), inner_plan.files, file);
            let deeper = lemma_planned_file_is_reached(inner, from, to, existing, excluded, file);
            let below = seq![name] + deeper.0;
            assert(below.skip(1) =~= deeper.0);
            assert(source + below =~= from + deeper.0);
            assert(target + below =~= to + deeper.0);
            (below, deeper.1)
        },
    }
}

/// A directory that the comparison descends into is planned for creation
/// if its counterpart is missing.
pub proof fn lemma_reached_directory_is_planned(
    entries: Seq<SourceNode>,
    source: Seq<Seq<char>>,
    target: Seq<Seq<char>>,
    existing: Target,
    excluded: Set<Seq<Seq<char>>>,
    below: Seq<Seq<char>>,
)
    requires
        reaches_directory(entries, source, excluded, below),
        !existing.contains_key(target + below),
    ensures
        diff_entries(entries, source, target, existing, excluded).directories.contains(
            target + below,
        ),
    decreases below.len(),
{
    let i = lemma_entry_of_reached_directory(entries, source, excluded, below);
    let node = entries[i];
    let from = source.push(node.name());
    let to = target.push(node.name());
    let node_plan = diff_entry(node, source, target, existing, excluded);
    match node {
        SourceNode::File { .. } => {},
        SourceNode::Directory { entries: inner, .. } => {
            let inner_plan = diff_entries(inner, from, to, existing, excluded);
            if below.len() == 1 {
                assert(target + below =~= to);
                assert(node_plan.directories[0] == to);
            } else {
                assert(to + below.skip(1) =~= target + below);
                lemma_reached_directory_is_planned(
                    inner,
                    from,
                    to,
                    existing,
                    excluded,
                    below.skip(1),
                );
                lemma_joined_contains(seq![to], inner_plan.directories, target + below);
                lemma_joined_contains(
                    Seq::<Seq<Seq<char>>>::empty(),
                    inner_plan.directories,
                    target + below,
                );
                assert(Plan::empty().with_directory(to).directories =~= seq![to]);
            }
        },
    }
    lemma_directory_of_entry_included(entries, i, source, target, existing, excluded, target + below);
}

/// A directory planned for creation is one that the comparison descends
/// into, and its counterpart is missing.
pub proof fn lemma_planned_directory_is_reached(
    entries: Seq<SourceNode>,
    source: Seq<Seq<char>>,
    target: Seq<Seq<char>>,
    existing: Target,
    excluded: Set<Seq<Seq<char>>>,
    directory: Seq<Seq<char>>,
) -> (below: Seq<Seq<char>>)
    requires
        diff_entries(entries, source, target, existing, excluded).directories.contains(directory),
    ensures
        reaches_directory(entries, source, excluded, below),
        directory == target + below,
        !existing.contains_key(directory),
    decreases entries, 1nat,
{
    let i = lemma_directory_of_some_entry(entries, source, target, existing, excluded, directory);
    let below = lemma_planned_directory_under_entry(
        entries[i],
        source,
        target,
        existing,
        excluded,
        directory,
    );
    assert(directory_under(entries[i], source, excluded, below));
    below
}

/// A directory planned for an entry is or lies under that entry.
proof fn lemma_planned_directory_under_entry(
    node: SourceNode,
    source: Seq<Seq<char>>,
    target: Seq<Seq<char>>,
    existing: Target,
    excluded: Set<Seq<Seq<char>>>,
    directory: Seq<Seq<char>>,
) -> (below: Seq<Seq<char>>)
    requires
        diff_entry(node, source, target, existing, excluded).directories.contains(directory),
    ensures
        directory_under(node, source, excluded, below),
        directory == target + below,
        !existing.contains_key(directory),
    decreases node, 0nat,
{
    let from = source.push(node.name());
    let to = target.push(node.name());
    match node {
        SourceNode::File { .. } => {
            let plan = diff_entry(node, source, target, existing, excluded);
            assert(plan.directories.len() == 0);
            Seq::empty()
        },
        SourceNode::Directory { name, entries: inner } => {
            let inner_plan = diff_entries(inner, from, to, existing, excluded);
            assert(Plan::empty().with_directory(to).directories =~= seq![to]);
            lemma_joined_contains(seq![to], inner_plan.directories, directory);
            lemma_joined_contains(
                Seq::<Seq<Seq<char>>>::empty(),
                inner_plan.directories,
                directory,
            );
            if !existing.contains_key(to) && !inner_plan.directories.contains(directory) {
                assert(seq![to].contains(directory));
                assert(directory == to);
                let below = seq![name];
                assert(target + below =~= to);
                below
            } else {
                let deeper = lemma_planned_directory_is_reached(
                    inner,
                    from,
                    to,
                    existing,
                    excluded,
                    directory,
                );
                let below = seq![name] + deeper;
                assert(below.skip(1) =~= deeper);
                assert(target + below =~= to + deeper);
                below
            }
        },
    }
}

/// The comparison comes to a file only through directories that are not
/// excluded.
pub proof fn lemma_reached_file_not_under_excluded(
    entries: Seq<SourceNode>,
    source: Seq<Seq<char>>,
    excluded: Set<Seq<Seq<char>>>,
    below: Seq<Seq<char>>,
    modified: int,
    k: int,
)
    requires
        reaches_file(entries, source, excluded, below, modified),
        0 < k < below.len(),
    ensures
        !excluded.contains(source + below.take(k)),
    decreases below.len(),
{
    let i = lemma_entry_of_reached_file(entries, source, excluded, below, modified);
    let from = source.push(below[0]);
    match entries[i] {
        SourceNode::File { .. } => {},
        SourceNode::Directory { entries: inner, .. } => {
            if k == 1 {
                assert(source + below.take(1) =~= from);
            } else {
                assert(from + below.skip(1).take(k - 1) =~= source + below.take(k));
                lemma_reached_file_not_under_excluded(
                    inner,
                    from,
                    excluded,
                    below.skip(1),
                    modified,
                    k - 1,
                );
            }
        },
    }
}

/// The comparison descends into a directory only if neither it nor a
/// directory above it is excluded.
pub proof fn lemma_reached_directory_not_under_excluded(
    entries: Seq<SourceNode>,
    source: Seq<Seq<char>>,
    excluded: Set<Seq<Seq<char>>>,
    below: Seq<Seq<char>>,
    k: int,
)
    requires
        reaches_directory(entries, source, excluded, below),
        0 < k <= below.len(),
    ensures
        !excluded.contains(source + below.take(k)),
    decreases below.len(),
{
    let i = lemma_entry_of_reached_directory(entries, source, excluded, below);
    let from = source.push(below[0]);
    match entries[i] {
        SourceNode::File { .. } => {},
        SourceNode::Directory { entries: inner, .. } => {
            if k == 1 {
                assert(source + below.take(1) =~= from);
            } else {
                assert(from + below.skip(1).take(k - 1) =~= source + below.take(k));
                lemma_reached_directory_not_under_excluded(
                    inner,
                    from,
                    excluded,
                    below.skip(1),
                    k - 1,
                );
            }
        },
    }
}

/// Where no directory holds two entries of one name, the names that lead
/// to a file lead to one file only.
pub proof fn lemma_reached_file_is_unique(
    entries: Seq<SourceNode>,
    source: Seq<Seq<char>>,
    excluded: Set<Seq<Seq<char>>>,
    below: Seq<Seq<char>>,
    one: int,
    other: int,
)
    requires
        distinct_names(entries),
        reaches_file(entries, source, excluded, below, one),
        reaches_file(entries, source, excluded, below, other),
    ensures
        one == other,
    decreases below.len(),
{
    let i = lemma_entry_of_reached_file(entries, source, excluded, below, one);
    let j = lemma_entry_of_reached_file(entries, source, excluded, below, other);
    assert(entries[i].name() == entries[j].name());
    assert(i == j);
    assert(distinct_names_in(entries[i]));
    match entries[i] {
        SourceNode::File { .. } => {},
        SourceNode::Directory { entries: inner, .. } => {
            lemma_reached_file_is_unique(
                inner,
                source.push(below[0]),
                excluded,
                below.skip(1),
                one,
                other,
            );
        },
    }
}

/// The comparison comes to a file that is not directly in the source
/// directory by descending into the directory that holds it.
pub proof fn lemma_reached_file_lies_in_reached_directory(
    entries: Seq<SourceNode>,
    source: Seq<Seq<char>>,
    excluded: Set<Seq<Seq<char>>>,
    below: Seq<Seq<char>>,
    modified: int,
)
    requires
        reaches_file(entries, source, excluded, below, modified),
        below.len() > 1,
    ensures
        reaches_directory(entries, source, excluded, below.drop_last()),
    decreases below.len(),
{
    let i = lemma_entry_of_reached_file(entries, source, excluded, below, modified);
    match entries[i] {
        SourceNode::File { .. } => {},
        SourceNode::Directory { entries: inner, .. } => {
            if below.len() > 2 {
                lemma_reached_file_lies_in_reached_directory(
                    inner,
                    source.push(below[0]),
                    excluded,
                    below.skip(1),
                    modified,
                );
                assert(below.drop_last().skip(1) =~= below.skip(1).drop_last());
            }
            assert(directory_under(entries[i], source, excluded, below.drop_last()));
        },
    }
}

} // verus!
