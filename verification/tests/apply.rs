use dirsync::apply::{Applier, PlanApplier, Step};
use dirsync::path::TreePath;
use dirsync::plan::{DirectoryToCreate, FileToCopy, FilesAndDirectories};

fn path(text: &str) -> TreePath {
    TreePath::from_components(text.split('/').map(|p| p.to_string()).collect())
}

fn run<T>(items: Vec<T>, outcomes: &[bool]) -> Vec<T> {
    let mut applier = Applier::new(items);
    for ok in outcomes {
        applier.record(*ok);
    }
    applier.finish()
}

#[test]
fn empty_batch_has_nothing_to_attempt_and_no_failures() {
    let mut applier: Applier<u32> = Applier::new(vec![]);
    assert_eq!(applier.total(), 0);
    assert_eq!(applier.attempted(), 0);
    assert_eq!(applier.current(), None);
    applier.record(false);
    assert_eq!(applier.attempted(), 0);
    assert_eq!(applier.finish(), Vec::<u32>::new());
}

#[test]
fn items_are_handed_out_in_order() {
    let mut applier = Applier::new(vec!['a', 'b', 'c']);
    assert_eq!(applier.total(), 3);
    assert_eq!(applier.current(), Some(&'a'));
    assert_eq!(applier.current(), Some(&'a'));
    applier.record(true);
    assert_eq!(applier.attempted(), 1);
    assert_eq!(applier.current(), Some(&'b'));
    applier.record(false);
    assert_eq!(applier.attempted(), 2);
    assert_eq!(applier.current(), Some(&'c'));
    applier.record(true);
    assert_eq!(applier.attempted(), 3);
    assert_eq!(applier.current(), None);
    assert_eq!(applier.finish(), vec!['b']);
}

#[test]
fn failures_are_exactly_the_failed_items_in_order() {
    assert_eq!(run(vec![1, 2, 3, 4], &[true, true, true, true]), Vec::<i32>::new());
    assert_eq!(run(vec![1, 2, 3, 4], &[false, false, false, false]), vec![1, 2, 3, 4]);
    assert_eq!(run(vec![1, 2, 3, 4], &[false, true, true, false]), vec![1, 4]);
    assert_eq!(run(vec![1, 2, 3, 4], &[true, false, true, true]), vec![2]);
    assert_eq!(run(vec![7, 7, 7], &[true, false, false]), vec![7, 7]);
}

#[test]
fn a_failure_does_not_end_the_batch() {
    let mut applier = Applier::new(vec!["x", "y", "z"]);
    applier.record(false);
    assert_eq!(applier.current(), Some(&"y"));
    applier.record(false);
    assert_eq!(applier.current(), Some(&"z"));
    applier.record(true);
    assert_eq!(applier.current(), None);
    assert_eq!(applier.finish(), vec!["x", "y"]);
}

#[test]
fn items_never_attempted_are_no_failures() {
    assert_eq!(run(vec![1, 2, 3], &[]), Vec::<i32>::new());
    assert_eq!(run(vec![1, 2, 3], &[false]), vec![1]);
}

#[test]
fn outcomes_beyond_the_last_item_are_ignored() {
    assert_eq!(run(vec![1, 2], &[true, false, false, false]), vec![2]);
}

fn sample_plan() -> FilesAndDirectories {
    FilesAndDirectories {
        files: vec![
            FileToCopy { source: path("s/a/f"), target: path("t/a/f") },
            FileToCopy { source: path("s/g"), target: path("t/g") },
        ],
        directories: vec![
            DirectoryToCreate { path: path("t/a") },
            DirectoryToCreate { path: path("t/b") },
        ],
    }
}

fn describe(step: Step<'_>) -> String {
    match step {
        Step::CreateDirectory(d) => format!("mkdir {}", d.path.components.join("/")),
        Step::CopyFile(f) => format!("copy {}", f.source.components.join("/")),
        Step::Done => "done".to_string(),
    }
}

#[test]
fn directories_come_before_files_whatever_fails() {
    for failing in [false, true] {
        let mut applier = PlanApplier::new(sample_plan());
        let mut steps = Vec::new();
        loop {
            let step = describe(applier.next());
            if step == "done" {
                break;
            }
            steps.push(step);
            applier.record(!failing);
        }
        assert_eq!(steps, vec!["mkdir t/a", "mkdir t/b", "copy s/a/f", "copy s/g"]);
        let (directories, files) = applier.finish();
        if failing {
            assert_eq!(directories, sample_plan().directories);
            assert_eq!(files, sample_plan().files);
        } else {
            assert!(directories.is_empty());
            assert!(files.is_empty());
        }
    }
}

#[test]
fn failed_directory_does_not_stop_the_copy_into_it() {
    let mut applier = PlanApplier::new(sample_plan());
    applier.record(false);
    applier.record(true);
    assert_eq!(applier.directories().attempted(), 2);
    assert_eq!(applier.files().attempted(), 0);
    assert_eq!(describe(applier.next()), "copy s/a/f");
    applier.record(false);
    applier.record(true);
    assert_eq!(describe(applier.next()), "done");
    applier.record(false);
    assert_eq!(applier.files().attempted(), 2);
    assert_eq!(applier.files().total(), 2);
    let (directories, files) = applier.finish();
    assert_eq!(directories, vec![DirectoryToCreate { path: path("t/a") }]);
    assert_eq!(files, vec![FileToCopy { source: path("s/a/f"), target: path("t/a/f") }]);
}

#[test]
fn empty_plan_is_done_at_once() {
    let applier = PlanApplier::new(FilesAndDirectories::new());
    assert_eq!(describe(applier.next()), "done");
    let (directories, files) = applier.finish();
    assert!(directories.is_empty());
    assert!(files.is_empty());
}
