//! Carrying a plan out, item by item.
//!
//! An [`Applier`] holds a batch of items, hands them out one at a time in
//! their order, takes for each whether the attempt succeeded, and in the
//! end gives back those that failed. A failure stops nothing: every item
//! of the batch gets its attempt.

use vstd::prelude::*;
use crate::plan::{DirectoryToCreate, FileToCopy, FilesAndDirectories};

verus! {

/// The items of `items` whose attempt failed according to `outcomes`, in
/// their order. An item without an outcome was not attempted and is no
/// failure.
pub open spec fn failures<T>(items: Seq<T>, outcomes: Seq<bool>) -> Seq<T>
    decreases items.len(),
{
    if items.len() == 0 {
        Seq::empty()
    } else {
        let earlier = failures(items.drop_last(), outcomes);
        if items.len() <= outcomes.len() && !outcomes[items.len() - 1] {
            earlier.push(items.last())
        } else {
            earlier
        }
    }
}

/// The state of a batch: its items, and the outcomes of the attempts made
/// so far, one for each of the first items.
pub struct Batch<T> {
    pub items: Seq<T>,
    pub outcomes: Seq<bool>,
}

impl<T> Batch<T> {
    /// The item whose attempt is next, if any is left.
    pub open spec fn current(self) -> Option<T> {
        if self.outcomes.len() < self.items.len() {
            Some(self.items[self.outcomes.len() as int])
        } else {
            None
        }
    }

    /// The state after the attempt on the current item ended as
    /// `succeeded` says. With no item left nothing changes.
    pub open spec fn record(self, succeeded: bool) -> Batch<T> {
        if self.outcomes.len() < self.items.len() {
            Batch { items: self.items, outcomes: self.outcomes.push(succeeded) }
        } else {
            self
        }
    }

    /// The items that failed so far.
    pub open spec fn failed(self) -> Seq<T> {
        failures(self.items, self.outcomes)
    }
}

/// A batch of items that is carried out one item at a time.
pub struct Applier<T> {
    items: Vec<T>,
    outcomes: Vec<bool>,
}

/// The batch that creates directories.
pub type DirectoryApplier = Applier<DirectoryToCreate>;

/// The batch that copies files.
pub type FileApplier = Applier<FileToCopy>;

impl<T> View for Applier<T> {
    type V = Batch<T>;

    closed spec fn view(&self) -> Batch<T> {
        Batch { items: self.items@, outcomes: self.outcomes@ }
    }
}

impl<T> Applier<T> {
    /// The batch of `items`, none of them attempted yet.
    pub fn new(items: Vec<T>) -> (applier: Applier<T>)
        ensures
            applier@ == (Batch { items: items@, outcomes: Seq::<bool>::empty() }),
    {
        Applier { items, outcomes: Vec::new() }
    }

    /// The number of items in the batch.
    pub fn total(&self) -> (n: usize)
        ensures
            n == self@.items.len(),
    {
        self.items.len()
    }

    /// The number of attempts recorded.
    pub fn attempted(&self) -> (n: usize)
        ensures
            n == self@.outcomes.len(),
    {
        self.outcomes.len()
    }

    /// The item to attempt next; `None` once every item has had its
    /// attempt.
    pub fn current(&self) -> (item: Option<&T>)
        ensures
            match item {
                Some(item) => self@.current() == Some(*item),
                None => self@.current() is None,
            },
    {
        let done = self.outcomes.len();
        if done < self.items.len() {
            Some(&self.items[done])
        } else {
            None
        }
    }

    /// Records how the attempt on the current item ended and moves on to
    /// the next item, whether the attempt succeeded or not.
    pub fn record(&mut self, succeeded: bool)
        ensures
            final(self)@ == old(self)@.record(succeeded),
    {
        if self.outcomes.len() < self.items.len() {
            self.outcomes.push(succeeded);
        }
    }

    /// Ends the batch and gives back the items whose attempt failed, in
    /// their order.
    pub fn finish(self) -> (failed: Vec<T>)
        ensures
            failed@ == self@.failed(),
    {
        let ghost items = self.items@;
        let total = self.items.len();
        let outcomes = self.outcomes;
        let mut failed: Vec<T> = Vec::new();
        let mut i: usize = 0;
        for item in iter: self.items
            invariant
                i == iter.index(),
                iter.seq() == items,
                total == items.len(),
                failed@ == failures(items.take(i as int), outcomes@),
        {
            proof {
                assert(items.take(i as int + 1).drop_last() =~= items.take(i as int));
            }
            if i < outcomes.len() && !outcomes[i] {
                failed.push(item);
            }
            i += 1;
        }
        assert(items.take(i as int) =~= items);
        failed
    }
}

/// The state of carrying a whole plan out: the batch of its directories and
/// the batch of its files.
pub struct Run {
    pub directories: Batch<DirectoryToCreate>,
    pub files: Batch<FileToCopy>,
}

impl Run {
    /// Whether a directory is next: one is as long as any directory has
    /// not had its attempt.
    pub open spec fn creating(self) -> bool {
        self.directories.current() is Some
    }

    /// The state after the attempt on the item that is next ended as
    /// `succeeded` says.
    pub open spec fn record(self, succeeded: bool) -> Run {
        if self.creating() {
            Run { directories: self.directories.record(succeeded), files: self.files }
        } else {
            Run { directories: self.directories, files: self.files.record(succeeded) }
        }
    }
}

/// What is to be attempted next when a plan is carried out.
pub enum Step<'a> {
    /// The creation of this directory.
    CreateDirectory(&'a DirectoryToCreate),
    /// This copy.
    CopyFile(&'a FileToCopy),
    /// Nothing: every item has had its attempt.
    Done,
}

/// A plan that is carried out: first every directory is created, in the
/// plan's order, then every file is copied.
pub struct PlanApplier {
    directories: DirectoryApplier,
    files: FileApplier,
}

impl View for PlanApplier {
    type V = Run;

    closed spec fn view(&self) -> Run {
        Run { directories: self.directories@, files: self.files@ }
    }
}

impl PlanApplier {
    /// Starts on `plan`, with nothing attempted yet.
    pub fn new(plan: FilesAndDirectories) -> (applier: PlanApplier)
        ensures
            applier@.directories == (Batch {
                items: plan.directories@,
                outcomes: Seq::<bool>::empty(),
            }),
            applier@.files == (Batch { items: plan.files@, outcomes: Seq::<bool>::empty() }),
    {
        PlanApplier {
            directories: Applier::new(plan.directories),
            files: Applier::new(plan.files),
        }
    }

    /// The batch of the directories.
    pub fn directories(&self) -> (batch: &DirectoryApplier)
        ensures
            batch@ == self@.directories,
    {
        &self.directories
    }

    /// The batch of the files.
    pub fn files(&self) -> (batch: &FileApplier)
        ensures
            batch@ == self@.files,
    {
        &self.files
    }

    /// What to attempt next. No file is copied before every directory has
    /// had its attempt, whether that attempt succeeded or not.
    pub fn next(&self) -> (step: Step<'_>)
        ensures
            match step {
                Step::CreateDirectory(directory) => self@.directories.current() == Some(
                    *directory,
                ),
                Step::CopyFile(file) => self@.directories.current() is None
                    && self@.files.current() == Some(*file),
                Step::Done => self@.directories.current() is None && self@.files.current() is None,
            },
    {
        match self.directories.current() {
            Some(directory) => Step::CreateDirectory(directory),
            None => match self.files.current() {
                Some(file) => Step::CopyFile(file),
                None => Step::Done,
            },
        }
    }

    /// Records how the attempt on the item that is next ended, and moves on.
    pub fn record(&mut self, succeeded: bool)
        ensures
            final(self)@ == old(self)@.record(succeeded),
    {
        if self.directories.attempted() < self.directories.total() {
            self.directories.record(succeeded);
        } else {
            self.files.record(succeeded);
        }
    }

    /// Ends the run and gives back the directories and the files whose
    /// attempt failed, each in the plan's order.
    pub fn finish(self) -> (failed: (Vec<DirectoryToCreate>, Vec<FileToCopy>))
        ensures
            failed.0@ == self@.directories.failed(),
            failed.1@ == self@.files.failed(),
    {
        (self.directories.finish(), self.files.finish())
    }
}

/// Outcomes beyond the last item say nothing about the items.
proof fn lemma_later_outcomes_do_not_count<T>(items: Seq<T>, outcomes: Seq<bool>, more: Seq<bool>)
    requires
        items.len() <= outcomes.len(),
    ensures
        failures(items, outcomes + more) == failures(items, outcomes),
    decreases items.len(),
{
    if items.len() > 0 {
        lemma_later_outcomes_do_not_count(items.drop_last(), outcomes, more);
    }
}

/// Items beyond the last outcome are no failures.
proof fn lemma_later_items_do_not_count<T>(items: Seq<T>, outcomes: Seq<bool>)
    requires
        outcomes.len() <= items.len(),
    ensures
        failures(items, outcomes) == failures(items.take(outcomes.len() as int), outcomes),
    decreases items.len(),
{
    if outcomes.len() < items.len() {
        lemma_later_items_do_not_count(items.drop_last(), outcomes);
        assert(items.drop_last().take(outcomes.len() as int) =~= items.take(outcomes.len() as int));
    } else {
        assert(items.take(outcomes.len() as int) =~= items);
    }
}

/// An attempt that fails adds its item to the failures and one that
/// succeeds adds nothing; either way the items that failed before stay,
/// and the batch moves on by one item.
pub proof fn lemma_record_keeps_earlier_failures<T>(batch: Batch<T>, succeeded: bool)
    requires
        batch.current() is Some,
    ensures
        batch.record(succeeded).outcomes.len() == batch.outcomes.len() + 1,
        batch.record(succeeded).failed() == if succeeded {
            batch.failed()
        } else {
            batch.failed().push(batch.current()->0)
        },
{
    let done = batch.outcomes.len() as int;
    let all = batch.record(succeeded).outcomes;
    let attempted = batch.items.take(done + 1);
    lemma_later_items_do_not_count(batch.items, all);
    lemma_later_items_do_not_count(batch.items, batch.outcomes);
    assert(attempted.drop_last() =~= batch.items.take(done));
    assert(all =~= batch.outcomes + seq![succeeded]);
    lemma_later_outcomes_do_not_count(batch.items.take(done), batch.outcomes, seq![succeeded]);
}

/// An item whose attempt failed is among the failures.
pub proof fn lemma_failed_item_is_reported<T>(items: Seq<T>, outcomes: Seq<bool>, i: int)
    requires
        0 <= i < items.len(),
        i < outcomes.len(),
        !outcomes[i],
    ensures
        failures(items, outcomes).contains(items[i]),
    decreases items.len(),
{
    let earlier = failures(items.drop_last(), outcomes);
    if i == items.len() - 1 {
        assert(earlier.push(items.last())[earlier.len() as int] == items[i]);
    } else {
        lemma_failed_item_is_reported(items.drop_last(), outcomes, i);
        let k = choose|k: int| 0 <= k < earlier.len() && earlier[k] == items[i];
        assert(failures(items, outcomes)[k] == items[i]);
    }
}

/// Each of the failures is an item whose attempt failed.
pub proof fn lemma_reported_item_failed<T>(items: Seq<T>, outcomes: Seq<bool>, k: int) -> (i: int)
    requires
        0 <= k < failures(items, outcomes).len(),
    ensures
        0 <= i < items.len(),
        i < outcomes.len(),
        !outcomes[i],
        items[i] == failures(items, outcomes)[k],
    decreases items.len(),
{
    let earlier = failures(items.drop_last(), outcomes);
    if k < earlier.len() {
        lemma_reported_item_failed(items.drop_last(), outcomes, k)
    } else {
        items.len() - 1
    }
}

/// When every attempt succeeded nothing is reported, and when only the
/// attempt on one item failed only that item is.
pub proof fn lemma_one_failure_is_reported_alone<T>(items: Seq<T>, outcomes: Seq<bool>, i: int)
    requires
        outcomes.len() == items.len(),
        forall|j: int| 0 <= j < outcomes.len() && j != i ==> outcomes[j],
    ensures
        failures(items, outcomes) == if 0 <= i < items.len() && !outcomes[i] {
            seq![items[i]]
        } else {
            Seq::empty()
        },
    decreases items.len(),
{
    if items.len() > 0 {
        let last = items.len() - 1;
        let earlier_outcomes = outcomes.drop_last();
        assert(outcomes =~= earlier_outcomes + seq![outcomes[last]]);
        lemma_later_outcomes_do_not_count(items.drop_last(), earlier_outcomes, seq![outcomes[last]]);
        lemma_one_failure_is_reported_alone(items.drop_last(), earlier_outcomes, i);
        if 0 <= i < last && !outcomes[i] {
            assert(items.drop_last()[i] == items[i]);
        }
        assert(failures(items, outcomes) =~= if 0 <= i < items.len() && !outcomes[i] {
            seq![items[i]]
        } else {
            Seq::empty()
        });
    }
}

} // verus!
