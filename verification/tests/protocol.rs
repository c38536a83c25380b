use dirsync::differ::{DiffError, DirEntry, Phase, Request, Response, TreeDiffer};
use dirsync::exclusion::ExclusionSet;
use dirsync::path::TreePath;
use dirsync::plan::{DirectoryToCreate, FileToCopy, FilesAndDirectories};

fn path(parts: &[&str]) -> TreePath {
    TreePath::from_components(parts.iter().map(|p| p.to_string()).collect())
}

fn entry(name: &str, is_directory: bool) -> DirEntry {
    DirEntry { name: name.to_string(), is_directory }
}

fn start() -> TreeDiffer {
    TreeDiffer::new(path(&["s"]), path(&["t"]), ExclusionSet::new())
}

#[test]
fn starts_by_listing_the_source() {
    let differ = start();
    assert_eq!(differ.phase(), Phase::Listing);
    assert_eq!(differ.request(), Some(Request::List { source: path(&["s"]) }));
    assert_eq!(differ.finish(), Err(DiffError::Unfinished));
}

#[test]
fn empty_listing_finishes() {
    let mut differ = start();
    differ.respond(Response::Listing(vec![]));
    assert_eq!(differ.phase(), Phase::Finished);
    assert_eq!(differ.request(), None);
    assert_eq!(differ.finish(), Ok(FilesAndDirectories::new()));
}

#[test]
fn file_is_probed_then_timed_then_decided() {
    let mut differ = start();
    differ.respond(Response::Listing(vec![entry("f", false)]));
    assert_eq!(differ.phase(), Phase::Probing);
    assert_eq!(differ.request(), Some(Request::Exists { target: path(&["t", "f"]) }));
    differ.respond(Response::Exists(true));
    assert_eq!(differ.phase(), Phase::Timing);
    assert_eq!(
        differ.request(),
        Some(Request::Modified { source: path(&["s", "f"]), target: path(&["t", "f"]) })
    );
    differ.respond(Response::Modified { source: 10, target: 9 });
    assert_eq!(differ.phase(), Phase::Finished);
    let plan = differ.finish().unwrap();
    assert_eq!(plan.files, vec![FileToCopy { source: path(&["s", "f"]), target: path(&["t", "f"]) }]);
    assert!(plan.directories.is_empty());
}

#[test]
fn missing_file_is_planned_without_asking_for_times() {
    let mut differ = start();
    differ.respond(Response::Listing(vec![entry("f", false), entry("g", false)]));
    differ.respond(Response::Exists(false));
    assert_eq!(differ.phase(), Phase::Probing);
    assert_eq!(differ.request(), Some(Request::Exists { target: path(&["t", "g"]) }));
    differ.respond(Response::Exists(false));
    let plan = differ.finish().unwrap();
    assert_eq!(
        plan.files,
        vec![
            FileToCopy { source: path(&["s", "f"]), target: path(&["t", "f"]) },
            FileToCopy { source: path(&["s", "g"]), target: path(&["t", "g"]) },
        ]
    );
}

#[test]
fn directory_is_probed_then_listed() {
    let mut differ = start();
    differ.respond(Response::Listing(vec![entry("d", true), entry("f", false)]));
    assert_eq!(differ.request(), Some(Request::Exists { target: path(&["t", "d"]) }));
    differ.respond(Response::Exists(false));
    assert_eq!(differ.phase(), Phase::Listing);
    assert_eq!(differ.request(), Some(Request::List { source: path(&["s", "d"]) }));
    differ.respond(Response::Listing(vec![entry("inner", false)]));
    assert_eq!(differ.request(), Some(Request::Exists { target: path(&["t", "d", "inner"]) }));
    differ.respond(Response::Exists(false));
    assert_eq!(differ.request(), Some(Request::Exists { target: path(&["t", "f"]) }));
    differ.respond(Response::Exists(true));
    differ.respond(Response::Modified { source: 3, target: 3 });
    let plan = differ.finish().unwrap();
    assert_eq!(plan.directories, vec![DirectoryToCreate { path: path(&["t", "d"]) }]);
    assert_eq!(
        plan.files,
        vec![FileToCopy { source: path(&["s", "d", "inner"]), target: path(&["t", "d", "inner"]) }]
    );
}

#[test]
fn entry_that_stopped_being_a_directory_contributes_nothing_more() {
    let mut differ = start();
    differ.respond(Response::Listing(vec![entry("d", true)]));
    differ.respond(Response::Exists(false));
    differ.respond(Response::NotADirectory);
    let plan = differ.finish().unwrap();
    assert_eq!(plan.directories, vec![DirectoryToCreate { path: path(&["t", "d"]) }]);
    assert!(plan.files.is_empty());
}

#[test]
fn failure_aborts_in_every_phase_and_drops_the_plan() {
    let mut listing = start();
    listing.respond(Response::Failed);
    assert_eq!(listing.phase(), Phase::Aborted);
    assert_eq!(listing.request(), None);
    assert_eq!(listing.finish(), Err(DiffError::Aborted));

    let mut probing = start();
    probing.respond(Response::Listing(vec![entry("a", false), entry("b", false)]));
    probing.respond(Response::Exists(false));
    probing.respond(Response::Failed);
    assert_eq!(probing.phase(), Phase::Aborted);
    assert_eq!(probing.finish(), Err(DiffError::Aborted));

    let mut timing = start();
    timing.respond(Response::Listing(vec![entry("a", false)]));
    timing.respond(Response::Exists(true));
    timing.respond(Response::Failed);
    assert_eq!(timing.finish(), Err(DiffError::Aborted));
}

#[test]
fn answer_to_another_request_aborts() {
    let mut differ = start();
    differ.respond(Response::Exists(true));
    assert_eq!(differ.finish(), Err(DiffError::Aborted));

    let mut differ = start();
    differ.respond(Response::Listing(vec![entry("a", false)]));
    differ.respond(Response::Modified { source: 1, target: 0 });
    assert_eq!(differ.finish(), Err(DiffError::Aborted));

    let mut differ = start();
    differ.respond(Response::Listing(vec![entry("a", false)]));
    differ.respond(Response::Exists(true));
    differ.respond(Response::Listing(vec![]));
    assert_eq!(differ.finish(), Err(DiffError::Aborted));
}

#[test]
fn ended_comparison_ignores_what_it_is_told() {
    let mut differ = start();
    differ.respond(Response::Listing(vec![entry("a", false)]));
    differ.respond(Response::Exists(false));
    assert_eq!(differ.phase(), Phase::Finished);
    differ.respond(Response::Failed);
    differ.respond(Response::Exists(false));
    assert_eq!(differ.phase(), Phase::Finished);
    assert_eq!(differ.finish().unwrap().files.len(), 1);

    let mut aborted = start();
    aborted.respond(Response::Failed);
    aborted.respond(Response::Listing(vec![]));
    assert_eq!(aborted.phase(), Phase::Aborted);
    assert_eq!(aborted.finish(), Err(DiffError::Aborted));
}

#[test]
fn unfinished_comparison_hands_over_no_plan() {
    let mut differ = start();
    differ.respond(Response::Listing(vec![entry("a", false), entry("b", false)]));
    differ.respond(Response::Exists(false));
    assert_eq!(differ.finish(), Err(DiffError::Unfinished));
}
