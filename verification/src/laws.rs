//! What holds of every plan.

use vstd::prelude::*;
use crate::conversation::{finished, lemma_walk_computes_diff, replay, script};
use crate::differ::Walk;
use crate::path::{is_below, is_within};
use crate::plan::{FileCopy, Plan};
use crate::reach::{
    distinct_names, lemma_planned_directory_is_reached, lemma_planned_file_is_reached,
    lemma_reached_directory_is_planned, lemma_reached_directory_not_under_excluded,
    lemma_reached_file_is_planned, lemma_reached_file_is_unique,
    lemma_reached_file_lies_in_reached_directory,
    lemma_reached_file_not_under_excluded, reaches_directory, reaches_file,
};
use crate::tree::{diff_entries, diff_entry, needs_copy, SourceNode, Target};

verus! {

/// A file of the source whose counterpart is missing is planned for copy,
/// whenever it was modified.
pub proof fn lemma_missing_target_is_copied(
    entries: Seq<SourceNode>,
    source: Seq<Seq<char>>,
    target: Seq<Seq<char>>,
    existing: Target,
    excluded: Set<Seq<Seq<char>>>,
    below: Seq<Seq<char>>,
    modified: int,
)
    requires
        reaches_file(entries, source, excluded, below, modified),
        !existing.contains_key(target + below),
    ensures
        diff_entries(entries, source, target, existing, excluded).files.contains(
            FileCopy { source: source + below, target: target + below },
        ),
{
    lemma_reached_file_is_planned(entries, source, target, existing, excluded, below, modified);
}

/// A file of the source whose counterpart exists is planned for copy if and
/// only if the counterpart was modified strictly earlier than the file.
pub proof fn lemma_copied_iff_target_older(
    entries: Seq<SourceNode>,
    source: Seq<Seq<char>>,
    target: Seq<Seq<char>>,
    existing: Target,
    excluded: Set<Seq<Seq<char>>>,
    below: Seq<Seq<char>>,
    modified: int,
)
    requires
        distinct_names(entries),
        reaches_file(entries, source, excluded, below, modified),
        existing.contains_key(target + below),
    ensures
        diff_entries(entries, source, target, existing, excluded).files.contains(
            FileCopy { source: source + below, target: target + below },
        ) <==> existing[target + below] < modified,
{
    let file = FileCopy { source: source + below, target: target + below };
    if existing[target + below] < modified {
        lemma_reached_file_is_planned(entries, source, target, existing, excluded, below, modified);
    }
    if diff_entries(entries, source, target, existing, excluded).files.contains(file) {
        let found = lemma_planned_file_is_reached(
            entries,
            source,
            target,
            existing,
            excluded,
            file,
        );
        lemma_same_rest(source, found.0, below);
        lemma_reached_file_is_unique(entries, source, excluded, below, found.1, modified);
    }
}

/// A file of the source whose counterpart exists and was modified at the
/// same time is not planned for copy.
pub proof fn lemma_equal_times_not_copied(
    entries: Seq<SourceNode>,
    source: Seq<Seq<char>>,
    target: Seq<Seq<char>>,
    existing: Target,
    excluded: Set<Seq<Seq<char>>>,
    below: Seq<Seq<char>>,
    modified: int,
)
    requires
        distinct_names(entries),
        reaches_file(entries, source, excluded, below, modified),
        existing.contains_key(target + below),
        existing[target + below] == modified,
    ensures
        !diff_entries(entries, source, target, existing, excluded).files.contains(
            FileCopy { source: source + below, target: target + below },
        ),
{
    lemma_copied_iff_target_older(entries, source, target, existing, excluded, below, modified);
}

/// An excluded directory of the source contributes nothing to the plan: no
/// planned file lies under it or is to land under its counterpart, and no
/// planned directory is its counterpart or lies under that.
pub proof fn lemma_excluded_contributes_nothing(
    entries: Seq<SourceNode>,
    source: Seq<Seq<char>>,
    target: Seq<Seq<char>>,
    existing: Target,
    excluded: Set<Seq<Seq<char>>>,
    below: Seq<Seq<char>>,
)
    requires
        below.len() > 0,
        excluded.contains(source + below),
    ensures
        forall|i: int|
            #![trigger diff_entries(entries, source, target, existing, excluded).files[i]]
            0 <= i < diff_entries(entries, source, target, existing, excluded).files.len() ==> {
                let file = diff_entries(entries, source, target, existing, excluded).files[i];
                !is_below(file.source, source + below) && !is_below(file.target, target + below)
            },
        forall|i: int|
            #![trigger diff_entries(entries, source, target, existing, excluded).directories[i]]
            0 <= i < diff_entries(entries, source, target, existing, excluded).directories.len()
                ==> !is_within(
                diff_entries(entries, source, target, existing, excluded).directories[i],
                target + below,
            ),
{
    let plan = diff_entries(entries, source, target, existing, excluded);
    assert forall|i: int| 0 <= i < plan.files.len() implies !is_below(
        #[trigger] plan.files[i].source,
        source + below,
    ) && !is_below(plan.files[i].target, target + below) by {
        let file = plan.files[i];
        let found = lemma_planned_file_is_reached(
            entries,
            source,
            target,
            existing,
            excluded,
            file,
        );
        if is_below(file.source, source + below) || is_below(file.target, target + below) {
            let k = below.len() as int;
            if is_below(file.source, source + below) {
                lemma_same_start(source, found.0, below);
            } else {
                lemma_same_start(target, found.0, below);
            }
            lemma_reached_file_not_under_excluded(entries, source, excluded, found.0, found.1, k);
        }
    }
    assert forall|i: int| 0 <= i < plan.directories.len() implies !is_within(
        #[trigger] plan.directories[i],
        target + below,
    ) by {
        let directory = plan.directories[i];
        let found = lemma_planned_directory_is_reached(
            entries,
            source,
            target,
            existing,
            excluded,
            directory,
        );
        if is_within(directory, target + below) {
            let k = below.len() as int;
            lemma_same_start(target, found, below);
            lemma_reached_directory_not_under_excluded(entries, source, excluded, found, k);
        }
    }
}

/// Every planned file lies under the source directory, and its target is
/// the target directory joined with the file's path relative to the source
/// directory. Every planned directory lies under the target directory and
/// does not exist there yet.
pub proof fn lemma_plan_mirrors_source(
    entries: Seq<SourceNode>,
    source: Seq<Seq<char>>,
    target: Seq<Seq<char>>,
    existing: Target,
    excluded: Set<Seq<Seq<char>>>,
)
    ensures
        forall|i: int|
            #![trigger diff_entries(entries, source, target, existing, excluded).files[i]]
            0 <= i < diff_entries(entries, source, target, existing, excluded).files.len() ==> {
                let file = diff_entries(entries, source, target, existing, excluded).files[i];
                &&& is_below(file.source, source)
                &&& file.target == target + file.source.skip(source.len() as int)
            },
        forall|i: int|
            #![trigger diff_entries(entries, source, target, existing, excluded).directories[i]]
            0 <= i < diff_entries(entries, source, target, existing, excluded).directories.len()
                ==> {
                let directory = diff_entries(
                    entries,
                    source,
                    target,
                    existing,
                    excluded,
                ).directories[i];
                &&& is_below(directory, target)
                &&& !existing.contains_key(directory)
                &&& reaches_directory(
                    entries,
                    source,
                    excluded,
                    directory.skip(target.len() as int),
                )
            },
{
    let plan = diff_entries(entries, source, target, existing, excluded);
    assert forall|i: int| 0 <= i < plan.files.len() implies is_below(
        #[trigger] plan.files[i].source,
        source,
    ) && plan.files[i].target == target + plan.files[i].source.skip(source.len() as int) by {
        let file = plan.files[i];
        let found = lemma_planned_file_is_reached(
            entries,
            source,
            target,
            existing,
            excluded,
            file,
        );
        assert((source + found.0).take(source.len() as int) =~= source);
        assert((source + found.0).skip(source.len() as int) =~= found.0);
    }
    assert forall|i: int| 0 <= i < plan.directories.len() implies is_below(
        #[trigger] plan.directories[i],
        target,
    ) && !existing.contains_key(plan.directories[i]) && reaches_directory(
        entries,
        source,
        excluded,
        plan.directories[i].skip(target.len() as int),
    ) by {
        let directory = plan.directories[i];
        let found = lemma_planned_directory_is_reached(
            entries,
            source,
            target,
            existing,
            excluded,
            directory,
        );
        assert((target + found).take(target.len() as int) =~= target);
        assert((target + found).skip(target.len() as int) =~= found);
    }
}

/// The directory into which a planned file is to be copied is there when
/// the copy is due: it is the target directory itself, or it exists, or
/// it is planned for creation.
pub proof fn lemma_copies_land_in_directories(
    entries: Seq<SourceNode>,
    source: Seq<Seq<char>>,
    target: Seq<Seq<char>>,
    existing: Target,
    excluded: Set<Seq<Seq<char>>>,
    i: int,
)
    requires
        0 <= i < diff_entries(entries, source, target, existing, excluded).files.len(),
    ensures
        ({
            let plan = diff_entries(entries, source, target, existing, excluded);
            let parent = plan.files[i].target.drop_last();
            parent == target || existing.contains_key(parent) || plan.directories.contains(parent)
        }),
{
    let plan = diff_entries(entries, source, target, existing, excluded);
    let file = plan.files[i];
    let found = lemma_planned_file_is_reached(entries, source, target, existing, excluded, file);
    let parent = file.target.drop_last();
    if found.0.len() == 1 {
        assert(parent =~= target);
    } else {
        lemma_reached_file_lies_in_reached_directory(entries, source, excluded, found.0, found.1);
        assert(parent =~= target + found.0.drop_last());
        if !existing.contains_key(parent) {
            lemma_reached_directory_is_planned(
                entries,
                source,
                target,
                existing,
                excluded,
                found.0.drop_last(),
            );
        }
    }
}

/// Whether each of `directories` comes after the directory that is to hold
/// it, unless that one is `base` or exists.
pub open spec fn parents_first(
    directories: Seq<Seq<Seq<char>>>,
    base: Seq<Seq<char>>,
    existing: Target,
) -> bool {
    forall|j: int|
        #![trigger directories[j]]
        0 <= j < directories.len() ==> {
            let parent = directories[j].drop_last();
            ||| parent == base
            ||| existing.contains_key(parent)
            ||| exists|i: int| 0 <= i < j && #[trigger] directories[i] == parent
        }
}

/// Of two sequences in which parents come first, the one followed by the
/// other is such a sequence too.
proof fn lemma_parents_first_joined(
    a: Seq<Seq<Seq<char>>>,
    b: Seq<Seq<Seq<char>>>,
    base: Seq<Seq<char>>,
    existing: Target,
)
    requires
        parents_first(a, base, existing),
        parents_first(b, base, existing),
    ensures
        parents_first(a + b, base, existing),
{
    let all = a + b;
    assert forall|j: int| 0 <= j < all.len() implies ({
        let parent = (#[trigger] all[j]).drop_last();
        ||| parent == base
        ||| existing.contains_key(parent)
        ||| exists|i: int| 0 <= i < j && #[trigger] all[i] == parent
    }) by {
        let parent = all[j].drop_last();
        if j < a.len() {
            assert(a[j] == all[j]);
            if parent != base && !existing.contains_key(parent) {
                let i = choose|i: int| 0 <= i < j && #[trigger] a[i] == parent;
                assert(all[i] == parent);
            }
        } else {
            let k = j - a.len();
            assert(b[k] == all[j]);
            if parent != base && !existing.contains_key(parent) {
                let i = choose|i: int| 0 <= i < k && #[trigger] b[i] == parent;
                assert(all[a.len() + i] == parent);
            }
        }
    }
}

/// The directories are planned in an order in which they can be created
/// one by one: each comes after the directory that is to hold it, unless
/// that one is the target directory or exists.
pub proof fn lemma_parents_come_first(
    entries: Seq<SourceNode>,
    source: Seq<Seq<char>>,
    target: Seq<Seq<char>>,
    existing: Target,
    excluded: Set<Seq<Seq<char>>>,
)
    ensures
        parents_first(
            diff_entries(entries, source, target, existing, excluded).directories,
            target,
            existing,
        ),
    decreases entries, 1nat,
{
    if entries.len() > 0 {
        let rest = entries.subrange(1, entries.len() as int);
        lemma_parents_come_first_under(entries[0], source, target, existing, excluded);
        lemma_parents_come_first(rest, source, target, existing, excluded);
        lemma_parents_first_joined(
            diff_entry(entries[0], source, target, existing, excluded).directories,
            diff_entries(rest, source, target, existing, excluded).directories,
            target,
            existing,
        );
    }
}

/// What `lemma_parents_come_first` says, of the plan for one entry.
proof fn lemma_parents_come_first_under(
    node: SourceNode,
    source: Seq<Seq<char>>,
    target: Seq<Seq<char>>,
    existing: Target,
    excluded: Set<Seq<Seq<char>>>,
)
    ensures
        parents_first(
            diff_entry(node, source, target, existing, excluded).directories,
            target,
            existing,
        ),
    decreases node, 0nat,
{
    let from = source.push(node.name());
    let to = target.push(node.name());
    let all = diff_entry(node, source, target, existing, excluded).directories;
    match node {
        SourceNode::File { .. } => {},
        SourceNode::Directory { entries: inner, .. } => {
            if !excluded.contains(from) {
                let below = diff_entries(inner, from, to, existing, excluded).directories;
                lemma_parents_come_first(inner, from, to, existing, excluded);
                let head = if existing.contains_key(to) {
                    Seq::<Seq<Seq<char>>>::empty()
                } else {
                    seq![to]
                };
                assert(all =~= head + below);
                assert(to.drop_last() =~= target);
                assert forall|j: int| 0 <= j < all.len() implies ({
                    let parent = (#[trigger] all[j]).drop_last();
                    ||| parent == target
                    ||| existing.contains_key(parent)
                    ||| exists|i: int| 0 <= i < j && #[trigger] all[i] == parent
                }) by {
                    let parent = all[j].drop_last();
                    if j >= head.len() {
                        let k = j - head.len();
                        assert(below[k] == all[j]);
                        if parent == to {
                            if !existing.contains_key(to) {
                                assert(all[0] == parent);
                            }
                        } else if !existing.contains_key(parent) {
                            let i = choose|i: int| 0 <= i < k && #[trigger] below[i] == parent;
                            assert(all[head.len() + i] == parent);
                        }
                    }
                }
            }
        },
    }
}

/// Whether `after` is the target side `before` once the plan for it has
/// been carried out and nothing else has touched it: every planned
/// directory exists, every file that was copied is at least as new as the
/// file it was copied from, and nothing that existed has gone or become
/// older.
pub open spec fn brought_up_to_date(
    entries: Seq<SourceNode>,
    source: Seq<Seq<char>>,
    target: Seq<Seq<char>>,
    excluded: Set<Seq<Seq<char>>>,
    before: Target,
    after: Target,
) -> bool {
    let plan = diff_entries(entries, source, target, before, excluded);
    &&& forall|path: Seq<Seq<char>>| #[trigger]
        before.contains_key(path) ==> after.contains_key(path) && after[path] >= before[path]
    &&& forall|i: int|
        0 <= i < plan.directories.len() ==> after.contains_key(#[trigger] plan.directories[i])
    &&& forall|below: Seq<Seq<char>>, modified: int|
        #![trigger reaches_file(entries, source, excluded, below, modified)]
        reaches_file(entries, source, excluded, below, modified) && plan.files.contains(
            FileCopy { source: source + below, target: target + below },
        ) ==> after.contains_key(target + below) && after[target + below] >= modified
}

/// Once a plan has been carried out and nothing else has touched the
/// target side, the comparison plans nothing more.
pub proof fn lemma_second_diff_is_empty(
    entries: Seq<SourceNode>,
    source: Seq<Seq<char>>,
    target: Seq<Seq<char>>,
    excluded: Set<Seq<Seq<char>>>,
    before: Target,
    after: Target,
)
    requires
        brought_up_to_date(entries, source, target, excluded, before, after),
    ensures
        diff_entries(entries, source, target, after, excluded) == Plan::empty(),
{
    let first = diff_entries(entries, source, target, before, excluded);
    let second = diff_entries(entries, source, target, after, excluded);
    if second.files.len() > 0 {
        let file = second.files[0];
        let found = lemma_planned_file_is_reached(entries, source, target, after, excluded, file);
        let to = target + found.0;
        assert(reaches_file(entries, source, excluded, found.0, found.1));
        if needs_copy(before, to, found.1) {
            lemma_reached_file_is_planned(
                entries,
                source,
                target,
                before,
                excluded,
                found.0,
                found.1,
            );
        } else {
            assert(before.contains_key(to));
        }
        assert(false);
    }
    if second.directories.len() > 0 {
        let directory = second.directories[0];
        let found = lemma_planned_directory_is_reached(
            entries,
            source,
            target,
            after,
            excluded,
            directory,
        );
        if !before.contains_key(directory) {
            lemma_reached_directory_is_planned(entries, source, target, before, excluded, found);
            let i = choose|i: int| 0 <= i < first.directories.len() && first.directories[i] == directory;
            assert(after.contains_key(first.directories[i]));
        } else {
            assert(before.contains_key(directory));
        }
        assert(false);
    }
    assert(second.files =~= Seq::<FileCopy>::empty());
    assert(second.directories =~= Seq::<Seq<Seq<char>>>::empty());
}

/// A comparison by conversation, made once a plan has been carried out and
/// nothing else has touched the target side, finishes with the empty plan.
pub proof fn lemma_second_walk_plans_nothing(
    entries: Seq<SourceNode>,
    source: Seq<Seq<char>>,
    target: Seq<Seq<char>>,
    excluded: Set<Seq<Seq<char>>>,
    before: Target,
    after: Target,
)
    requires
        brought_up_to_date(entries, source, target, excluded, before, after),
    ensures
        replay(
            Walk::start(source, target, excluded),
            script(entries, source, target, after, excluded),
        ) == Some(finished(excluded, Plan::empty())),
{
    lemma_second_diff_is_empty(entries, source, target, excluded, before, after);
    lemma_walk_computes_diff(entries, source, target, after, excluded);
}

/// Two continuations of one path that lead to the same path are the same.
proof fn lemma_same_rest(start: Seq<Seq<char>>, one: Seq<Seq<char>>, other: Seq<Seq<char>>)
    requires
        start + one == start + other,
    ensures
        one == other,
{
    assert((start + one).skip(start.len() as int) =~= one);
    assert((start + other).skip(start.len() as int) =~= other);
}

/// If a continuation of a path starts as another continuation of it does,
/// the one continuation starts with the other.
proof fn lemma_same_start(start: Seq<Seq<char>>, long: Seq<Seq<char>>, short: Seq<Seq<char>>)
    requires
        is_within(start + long, start + short),
    ensures
        short.len() <= long.len(),
        long.take(short.len() as int) == short,
        start + long.take(short.len() as int) == start + short,
{
    let n = (start.len() + short.len()) as int;
    assert((start + long).take(n).skip(start.len() as int) =~= long.take(short.len() as int));
    assert((start + short).skip(start.len() as int) =~= short);
}

} // verus!
