//! The comparison of a source tree with a target tree.
//!
//! The comparison is a conversation. [`TreeDiffer`] says what it needs to
//! know next (the listing of a source directory, whether a target path
//! exists, two modification times), the caller finds out and answers, and
//! at the end the differ hands over the plan. It never changes anything:
//! all it does with an answer is decide.

use vstd::prelude::*;
use crate::exclusion::ExclusionSet;
use crate::path::TreePath;
use crate::plan::{FilesAndDirectories, Plan};

verus! {

/// What the listing of a directory reports of one entry.
#[derive(Debug)]
pub struct DirEntry {
    /// The entry's name within its directory.
    pub name: String,
    /// Whether the entry is a directory. Anything else counts as a file.
    pub is_directory: bool,
}

/// The model of a [`DirEntry`].
pub struct DirEntryView {
    pub name: Seq<char>,
    pub is_directory: bool,
}

impl View for DirEntry {
    type V = DirEntryView;

    open spec fn view(&self) -> DirEntryView {
        DirEntryView { name: self.name@, is_directory: self.is_directory }
    }
}

impl PartialEq for DirEntry {
    fn eq(&self, other: &DirEntry) -> (same: bool) {
        self.name == other.name && self.is_directory == other.is_directory
    }
}

impl Eq for DirEntry {}

impl vstd::std_specs::cmp::PartialEqSpecImpl for DirEntry {
    open spec fn obeys_eq_spec() -> bool {
        true
    }

    open spec fn eq_spec(&self, other: &DirEntry) -> bool {
        self@ == other@
    }
}

/// What the differ needs to know next.
#[derive(Debug)]
pub enum Request {
    /// The entries of the source directory `source`, or that it is no
    /// directory.
    List { source: TreePath },
    /// Whether anything exists at `target`.
    Exists { target: TreePath },
    /// When `source` and `target` were last modified.
    Modified { source: TreePath, target: TreePath },
}

/// The model of a [`Request`].
pub enum RequestView {
    List { source: Seq<Seq<char>> },
    Exists { target: Seq<Seq<char>> },
    Modified { source: Seq<Seq<char>>, target: Seq<Seq<char>> },
}

impl View for Request {
    type V = RequestView;

    open spec fn view(&self) -> RequestView {
        match self {
            Request::List { source } => RequestView::List { source: source@ },
            Request::Exists { target } => RequestView::Exists { target: target@ },
            Request::Modified { source, target } => RequestView::Modified {
                source: source@,
                target: target@,
            },
        }
    }
}

impl PartialEq for Request {
    fn eq(&self, other: &Request) -> (same: bool) {
        match (self, other) {
            (Request::List { source: a }, Request::List { source: b }) => a == b,
            (Request::Exists { target: a }, Request::Exists { target: b }) => a == b,
            (
                Request::Modified { source: a, target: c },
                Request::Modified { source: b, target: d },
            ) => a == b && c == d,
            _ => false,
        }
    }
}

impl Eq for Request {}

impl vstd::std_specs::cmp::PartialEqSpecImpl for Request {
    open spec fn obeys_eq_spec() -> bool {
        true
    }

    open spec fn eq_spec(&self, other: &Request) -> bool {
        self@ == other@
    }
}

/// The answer to a [`Request`]. Times count nanoseconds from a fixed
/// instant; only their order matters.
#[derive(Debug)]
pub enum Response {
    /// To `List`: the path is no directory.
    NotADirectory,
    /// To `List`: the entries of the directory, in the order read.
    Listing(Vec<DirEntry>),
    /// To `Exists`.
    Exists(bool),
    /// To `Modified`.
    Modified { source: i128, target: i128 },
    /// To any request: it could not be answered.
    Failed,
}

/// The model of a [`Response`].
pub enum ResponseView {
    NotADirectory,
    Listing(Seq<DirEntryView>),
    Exists(bool),
    Modified { source: int, target: int },
    Failed,
}

impl View for Response {
    type V = ResponseView;

    open spec fn view(&self) -> ResponseView {
        match self {
            Response::NotADirectory => ResponseView::NotADirectory,
            Response::Listing(entries) => ResponseView::Listing(
                Seq::new(entries@.len(), |i: int| entries@[i]@),
            ),
            Response::Exists(found) => ResponseView::Exists(*found),
            Response::Modified { source, target } => ResponseView::Modified {
                source: *source as int,
                target: *target as int,
            },
            Response::Failed => ResponseView::Failed,
        }
    }
}

/// Whether two listings report the same entries in the same order.
fn same_listing(one: &Vec<DirEntry>, other: &Vec<DirEntry>) -> (same: bool)
    ensures
        same == (Seq::new(one@.len(), |i: int| one@[i]@) == Seq::new(
            other@.len(),
            |i: int| other@[i]@,
        )),
{
    let ghost left = Seq::new(one@.len(), |i: int| one@[i]@);
    let ghost right = Seq::new(other@.len(), |i: int| other@[i]@);
    if one.len() != other.len() {
        assert(left.len() != right.len());
        return false;
    }
    let mut i: usize = 0;
    while i < one.len()
        invariant
            i <= one.len(),
            one.len() == other.len(),
            left == Seq::new(one@.len(), |i: int| one@[i]@),
            right == Seq::new(other@.len(), |i: int| other@[i]@),
            forall|k: int| 0 <= k < i ==> left[k] == right[k],
        decreases one.len() - i,
    {
        if one[i] != other[i] {
            assert(left[i as int] != right[i as int]);
            return false;
        }
        i += 1;
    }
    assert(left =~= right);
    true
}

impl PartialEq for Response {
    fn eq(&self, other: &Response) -> (same: bool) {
        match (self, other) {
            (Response::NotADirectory, Response::NotADirectory) => true,
            (Response::Listing(a), Response::Listing(b)) => same_listing(a, b),
            (Response::Exists(a), Response::Exists(b)) => *a == *b,
            (
                Response::Modified { source: a, target: c },
                Response::Modified { source: b, target: d },
            ) => *a == *b && *c == *d,
            (Response::Failed, Response::Failed) => true,
            _ => false,
        }
    }
}

impl Eq for Response {}

impl vstd::std_specs::cmp::PartialEqSpecImpl for Response {
    open spec fn obeys_eq_spec() -> bool {
        true
    }

    open spec fn eq_spec(&self, other: &Response) -> bool {
        self@ == other@
    }
}

/// Why a comparison gave no plan.
#[derive(Debug, Clone, Copy, PartialEq, Eq, Structural)]
pub enum DiffError {
    /// A request was answered with `Failed`, or with an answer to another
    /// kind of request.
    Aborted,
    /// The differ still had requests to make.
    Unfinished,
}

/// What the differ is waiting for.
#[derive(Debug, Clone, Copy, PartialEq, Eq, Structural)]
pub enum Phase {
    /// The listing of the directory that is first in line.
    Listing,
    /// Whether the target of the entry first in line exists.
    Probing,
    /// The modification times of the file first in line and of its target.
    Timing,
    /// Nothing: the plan is complete.
    Finished,
    /// Nothing: the comparison was given up.
    Aborted,
}

/// An entry of the source tree that is still to be compared: where it is,
/// and where its counterpart on the target side is or would be.
pub struct Task {
    pub source: Seq<Seq<char>>,
    pub target: Seq<Seq<char>>,
    pub is_directory: bool,
}

/// Whether what was last modified at `target` is strictly older than what
/// was last modified at `source`. Only then is a file copied over one that
/// exists.
pub open spec fn is_older(target: int, source: int) -> bool {
    target < source
}

/// The task for the entry `entry` of the directory `source`, whose
/// counterpart is `target`.
pub open spec fn task_for(
    entry: DirEntryView,
    source: Seq<Seq<char>>,
    target: Seq<Seq<char>>,
) -> Task {
    Task {
        source: source.push(entry.name),
        target: target.push(entry.name),
        is_directory: entry.is_directory,
    }
}

/// Whether the entry `entry` of the directory `source` is left out: it is if
/// it is a directory whose path is excluded.
pub open spec fn is_skipped(
    entry: DirEntryView,
    source: Seq<Seq<char>>,
    excluded: Set<Seq<Seq<char>>>,
) -> bool {
    entry.is_directory && excluded.contains(source.push(entry.name))
}

/// The tasks for the entries of a listing, without those left out, in
/// reverse: the task of the first entry is the last.
pub open spec fn stacked(
    listing: Seq<DirEntryView>,
    source: Seq<Seq<char>>,
    target: Seq<Seq<char>>,
    excluded: Set<Seq<Seq<char>>>,
) -> Seq<Task> {
    listing.filter(|entry: DirEntryView| !is_skipped(entry, source, excluded)).map_values(
        |entry: DirEntryView| task_for(entry, source, target),
    ).reverse()
}

/// No entries give no tasks, and the task of the first entry of a listing
/// comes after the tasks of the others, unless the entry is left out.
pub proof fn lemma_stacked_first(
    listing: Seq<DirEntryView>,
    source: Seq<Seq<char>>,
    target: Seq<Seq<char>>,
    excluded: Set<Seq<Seq<char>>>,
)
    ensures
        stacked(listing, source, target, excluded) == if listing.len() == 0 {
            Seq::empty()
        } else if is_skipped(listing[0], source, excluded) {
            stacked(listing.skip(1), source, target, excluded)
        } else {
            stacked(listing.skip(1), source, target, excluded).push(
                task_for(listing[0], source, target),
            )
        },
{
    let kept = |entry: DirEntryView| !is_skipped(entry, source, excluded);
    let task = |entry: DirEntryView| task_for(entry, source, target);
    if listing.len() == 0 {
        assert(listing.filter(kept) =~= Seq::<DirEntryView>::empty()) by {
            reveal(Seq::filter);
        }
        assert(stacked(listing, source, target, excluded) =~= Seq::<Task>::empty());
    } else {
        let rest = listing.skip(1);
        assert(listing =~= seq![listing[0]] + rest);
        rest.lemma_filter_prepend(listing[0], kept);
        let later = rest.filter(kept);
        if is_skipped(listing[0], source, excluded) {
            assert(listing.filter(kept) =~= later);
        } else {
            assert(listing.filter(kept) =~= seq![listing[0]] + later);
            assert(stacked(listing, source, target, excluded) =~= stacked(
                rest,
                source,
                target,
                excluded,
            ).push(task_for(listing[0], source, target)));
        }
    }
}

/// What is awaited when `pending` are the entries still to compare and none
/// of them has been taken up.
pub open spec fn resume(pending: Seq<Task>) -> Phase {
    if pending.len() == 0 {
        Phase::Finished
    } else {
        Phase::Probing
    }
}

/// The state of a comparison.
pub struct Walk {
    /// The source directories that are not descended into.
    pub excluded: Set<Seq<Seq<char>>>,
    /// The entries still to compare. The last one is first in line.
    pub pending: Seq<Task>,
    /// What is awaited.
    pub phase: Phase,
    /// What has been planned so far.
    pub plan: Plan,
}

impl Walk {
    /// The state in which the comparison of the directory `source` with
    /// `target` starts. The root itself is never held against `excluded`.
    pub open spec fn start(
        source: Seq<Seq<char>>,
        target: Seq<Seq<char>>,
        excluded: Set<Seq<Seq<char>>>,
    ) -> Walk {
        Walk {
            excluded,
            pending: seq![Task { source, target, is_directory: true }],
            phase: Phase::Listing,
            plan: Plan::empty(),
        }
    }

    /// The state of a comparison that was given up: it holds no plan.
    pub open spec fn aborted(self) -> Walk {
        Walk {
            excluded: self.excluded,
            pending: Seq::empty(),
            phase: Phase::Aborted,
            plan: Plan::empty(),
        }
    }

    /// What the comparison needs to know in this state, if anything.
    pub open spec fn request(self) -> Option<RequestView> {
        if self.pending.len() == 0 {
            None
        } else {
            let first = self.pending.last();
            match self.phase {
                Phase::Listing => Some(RequestView::List { source: first.source }),
                Phase::Probing => Some(RequestView::Exists { target: first.target }),
                Phase::Timing => Some(
                    RequestView::Modified { source: first.source, target: first.target },
                ),
                Phase::Finished => None,
                Phase::Aborted => None,
            }
        }
    }

    /// The state after `response` has been given in this state.
    ///
    /// A finished or aborted comparison stays as it is. Otherwise `Failed`,
    /// and any response that does not answer the request, abort it.
    pub open spec fn step(self, response: ResponseView) -> Walk {
        if self.phase == Phase::Finished || self.phase == Phase::Aborted {
            self
        } else if self.pending.len() == 0 {
            self.aborted()
        } else {
            let first = self.pending.last();
            let rest = self.pending.drop_last();
            match (self.phase, response) {
                (Phase::Listing, ResponseView::NotADirectory) => Walk {
                    pending: rest,
                    phase: resume(rest),
                    ..self
                },
                (Phase::Listing, ResponseView::Listing(listing)) => {
                    let pending = rest + stacked(
                        listing,
                        first.source,
                        first.target,
                        self.excluded,
                    );
                    Walk { pending, phase: resume(pending), ..self }
                },
                (Phase::Probing, ResponseView::Exists(found)) => {
                    if first.is_directory {
                        Walk {
                            phase: Phase::Listing,
                            plan: if found {
                                self.plan
                            } else {
                                self.plan.with_directory(first.target)
                            },
                            ..self
                        }
                    } else if found {
                        Walk { phase: Phase::Timing, ..self }
                    } else {
                        Walk {
                            pending: rest,
                            phase: resume(rest),
                            plan: self.plan.with_file(first.source, first.target),
                            ..self
                        }
                    }
                },
                (Phase::Timing, ResponseView::Modified { source, target }) => Walk {
                    pending: rest,
                    phase: resume(rest),
                    plan: if is_older(target, source) {
                        self.plan.with_file(first.source, first.target)
                    } else {
                        self.plan
                    },
                    ..self
                },
                _ => self.aborted(),
            }
        }
    }
}

/// An entry still to compare, as the differ holds it.
struct PendingEntry {
    source: TreePath,
    target: TreePath,
    is_directory: bool,
}

impl View for PendingEntry {
    type V = Task;

    closed spec fn view(&self) -> Task {
        Task { source: self.source@, target: self.target@, is_directory: self.is_directory }
    }
}

/// The comparison of one source directory with one target directory.
pub struct TreeDiffer {
    excluded: ExclusionSet,
    pending: Vec<PendingEntry>,
    phase: Phase,
    plan: FilesAndDirectories,
}

impl View for TreeDiffer {
    type V = Walk;

    closed spec fn view(&self) -> Walk {
        Walk {
            excluded: self.excluded@,
            pending: Seq::new(self.pending@.len(), |i: int| self.pending@[i]@),
            phase: self.phase,
            plan: self.plan@,
        }
    }
}

/// The model of an optional request.
pub open spec fn request_view(request: Option<Request>) -> Option<RequestView> {
    match request {
        Some(r) => Some(r@),
        None => None,
    }
}

/// The outcome that the state `walk` stands for: its plan once it has
/// finished, and no plan before that or after it was given up.
pub open spec fn outcome(walk: Walk) -> Result<Plan, DiffError> {
    match walk.phase {
        Phase::Finished => Ok(walk.plan),
        Phase::Aborted => Err(DiffError::Aborted),
        _ => Err(DiffError::Unfinished),
    }
}

/// The model of an outcome.
pub open spec fn outcome_view(result: Result<FilesAndDirectories, DiffError>) -> Result<Plan, DiffError> {
    match result {
        Ok(plan) => Ok(plan@),
        Err(e) => Err(e),
    }
}

impl TreeDiffer {
    /// Starts the comparison of the directory `source` with the directory
    /// `target`, leaving out the directories in `excluded`.
    pub fn new(source: TreePath, target: TreePath, excluded: ExclusionSet) -> (differ: TreeDiffer)
        ensures
            differ@ == Walk::start(source@, target@, excluded@),
    {
        let mut pending: Vec<PendingEntry> = Vec::new();
        pending.push(PendingEntry { source, target, is_directory: true });
        let differ = TreeDiffer {
            excluded,
            pending,
            phase: Phase::Listing,
            plan: FilesAndDirectories::new(),
        };
        assert(differ@.pending =~= Walk::start(source@, target@, excluded@).pending);
        differ
    }

    /// What is awaited.
    pub fn phase(&self) -> (phase: Phase)
        ensures
            phase == self@.phase,
    {
        self.phase
    }

    /// What the differ needs to know next; `None` once the comparison has
    /// finished or was given up.
    pub fn request(&self) -> (request: Option<Request>)
        ensures
            request_view(request) == self@.request(),
    {
        let n = self.pending.len();
        if n == 0 {
            return None;
        }
        let first = &self.pending[n - 1];
        assert(first@ == self@.pending.last());
        match self.phase {
            Phase::Listing => Some(Request::List { source: first.source.clone() }),
            Phase::Probing => Some(Request::Exists { target: first.target.clone() }),
            Phase::Timing => Some(
                Request::Modified { source: first.source.clone(), target: first.target.clone() },
            ),
            Phase::Finished => None,
            Phase::Aborted => None,
        }
    }

    /// Takes the answer to the request last made.
    pub fn respond(&mut self, response: Response)
        ensures
            final(self)@ == old(self)@.step(response@),
    {
        match self.phase {
            Phase::Finished => {},
            Phase::Aborted => {},
            Phase::Listing => {
                match response {
                    Response::NotADirectory => {
                        match self.pending.pop() {
                            Some(_) => {
                                self.settle();
                                assert(self@.pending =~= old(self)@.pending.drop_last());
                            },
                            None => {
                                self.abort();
                            },
                        }
                    },
                    Response::Listing(entries) => {
                        match self.pending.pop() {
                            Some(directory) => {
                                assert(directory@ == old(self)@.pending.last());
                                assert(self@.pending =~= old(self)@.pending.drop_last());
                                self.stack(&entries, &directory);
                                self.settle();
                            },
                            None => {
                                self.abort();
                            },
                        }
                    },
                    _ => {
                        self.abort();
                    },
                }
            },
            Phase::Probing => {
                match response {
                    Response::Exists(found) => {
                        self.compare_existence(found);
                    },
                    _ => {
                        self.abort();
                    },
                }
            },
            Phase::Timing => {
                match response {
                    Response::Modified { source, target } => {
                        self.compare_times(source, target);
                    },
                    _ => {
                        self.abort();
                    },
                }
            },
        }
    }

    /// Hands over the plan of a finished comparison, and says why there is
    /// none otherwise.
    pub fn finish(self) -> (result: Result<FilesAndDirectories, DiffError>)
        ensures
            outcome_view(result) == outcome(self@),
    {
        match self.phase {
            Phase::Finished => Ok(self.plan),
            Phase::Aborted => Err(DiffError::Aborted),
            _ => Err(DiffError::Unfinished),
        }
    }

    /// Decides on the entry first in line now that it is known whether its
    /// target exists: a missing directory is to be created, a missing file
    /// to be copied, and for a file that exists the times decide.
    fn compare_existence(&mut self, found: bool)
        requires
            old(self).phase == Phase::Probing,
        ensures
            final(self)@ == old(self)@.step(ResponseView::Exists(found)),
    {
        let n = self.pending.len();
        if n == 0 {
            self.abort();
            return;
        }
        assert(self.pending@[n - 1]@ == old(self)@.pending.last());
        if self.pending[n - 1].is_directory {
            if !found {
                let path = self.pending[n - 1].target.clone();
                self.plan.push_directory(path);
            }
            self.phase = Phase::Listing;
            assert(self@.pending =~= old(self)@.pending);
        } else if found {
            self.phase = Phase::Timing;
            assert(self@.pending =~= old(self)@.pending);
        } else {
            match self.pending.pop() {
                Some(file) => {
                    self.plan.push_file(file.source, file.target);
                    self.settle();
                    assert(self@.pending =~= old(self)@.pending.drop_last());
                },
                None => {},
            }
        }
    }

    /// Decides on the file first in line now that both times are known: it
    /// is to be copied if its target is strictly older.
    fn compare_times(&mut self, source: i128, target: i128)
        requires
            old(self).phase == Phase::Timing,
        ensures
            final(self)@ == old(self)@.step(
                ResponseView::Modified { source: source as int, target: target as int },
            ),
    {
        match self.pending.pop() {
            Some(file) => {
                assert(file@ == old(self)@.pending.last());
                if target < source {
                    self.plan.push_file(file.source, file.target);
                }
                self.settle();
                assert(self@.pending =~= old(self)@.pending.drop_last());
            },
            None => {
                self.abort();
            },
        }
    }

    /// Puts the entries of the listing of `directory` in line, the first
    /// entry first, without the directories that are excluded.
    fn stack(&mut self, entries: &Vec<DirEntry>, directory: &PendingEntry)
        ensures
            final(self)@ == (Walk {
                pending: old(self)@.pending + stacked(
                    Seq::new(entries@.len(), |i: int| entries@[i]@),
                    directory@.source,
                    directory@.target,
                    old(self)@.excluded,
                ),
                ..old(self)@
            }),
    {
        let ghost listing = Seq::new(entries@.len(), |i: int| entries@[i]@);
        let ghost before = self@.pending;
        let mut i: usize = entries.len();
        proof {
            lemma_stacked_first(
                listing.skip(i as int),
                directory@.source,
                directory@.target,
                self@.excluded,
            );
        }
        assert(self@.pending =~= before + stacked(
            listing.skip(i as int),
            directory@.source,
            directory@.target,
            self@.excluded,
        ));
        while i > 0
            invariant
                i <= entries.len(),
                listing == Seq::new(entries@.len(), |i: int| entries@[i]@),
                self@.excluded == old(self)@.excluded,
                self@.phase == old(self)@.phase,
                self@.plan == old(self)@.plan,
                before == old(self)@.pending,
                self@.pending == before + stacked(
                    listing.skip(i as int),
                    directory@.source,
                    directory@.target,
                    self@.excluded,
                ),
            decreases i,
        {
            i -= 1;
            let entry = &entries[i];
            let source = directory.source.child(&entry.name);
            let ghost pending = self@.pending;
            proof {
                assert(listing.skip(i as int).skip(1) =~= listing.skip(i as int + 1));
                assert(listing.skip(i as int)[0] == entry@);
                lemma_stacked_first(
                    listing.skip(i as int),
                    directory@.source,
                    directory@.target,
                    self@.excluded,
                );
            }
            if !(entry.is_directory && self.excluded.contains(&source)) {
                let target = directory.target.child(&entry.name);
                self.pending.push(
                    PendingEntry { source, target, is_directory: entry.is_directory },
                );
                assert(self@.pending =~= pending.push(
                    task_for(entry@, directory@.source, directory@.target),
                ));
            } else {
                assert(self@.pending =~= pending);
            }
        }
        assert(listing.skip(0) =~= listing);
    }

    /// Turns to the entry that is now first in line, or finishes if none is
    /// left.
    fn settle(&mut self)
        ensures
            final(self)@ == (Walk { phase: resume(old(self)@.pending), ..old(self)@ }),
    {
        if self.pending.len() == 0 {
            self.phase = Phase::Finished;
        } else {
            self.phase = Phase::Probing;
        }
        assert(self@.pending =~= old(self)@.pending);
    }

    /// Gives the comparison up and drops what was planned.
    fn abort(&mut self)
        ensures
            final(self)@ == old(self)@.aborted(),
    {
        self.pending = Vec::new();
        self.plan = FilesAndDirectories::new();
        self.phase = Phase::Aborted;
        assert(self@.pending =~= Seq::<Task>::empty());
    }
}

/// A request that cannot be answered ends a running comparison, and no
/// plan comes of it, whatever had been planned.
pub proof fn lemma_failure_leaves_no_plan(walk: Walk)
    requires
        walk.phase != Phase::Finished,
        walk.phase != Phase::Aborted,
    ensures
        outcome(walk.step(ResponseView::Failed)) == Err::<Plan, DiffError>(DiffError::Aborted),
        walk.step(ResponseView::Failed).plan == Plan::empty(),
{
}

/// A comparison that has finished or was given up stays as it is and asks
/// nothing more, whatever it is told.
pub proof fn lemma_ended_stays_ended(walk: Walk, response: ResponseView)
    requires
        walk.phase == Phase::Finished || walk.phase == Phase::Aborted,
    ensures
        walk.step(response) == walk,
        walk.request() is None,
{
}

/// As long as a comparison is not given up, an answer only ever adds to the
/// end of what was planned: nothing planned is dropped or changed.
pub proof fn lemma_step_adds_to_plan(walk: Walk, response: ResponseView)
    requires
        walk.step(response).phase != Phase::Aborted,
    ensures
        walk.plan.files.is_prefix_of(walk.step(response).plan.files),
        walk.plan.directories.is_prefix_of(walk.step(response).plan.directories),
        walk.step(response).excluded == walk.excluded,
{
}

} // verus!
