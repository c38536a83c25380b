use std::collections::HashMap;

use dirsync::apply::{Applier, PlanApplier, Step};
use dirsync::differ::{DirEntry, Request, Response, TreeDiffer};
use dirsync::exclusion::ExclusionSet;
use dirsync::path::TreePath;
use dirsync::plan::{DirectoryToCreate, FileToCopy, FilesAndDirectories};

/// A file system held in memory. A directory has a listing; everything
/// that exists has a content and a modification time.
struct Disk {
    listings: HashMap<Vec<String>, Vec<String>>,
    files: HashMap<Vec<String>, (Vec<u8>, i128)>,
    clock: i128,
}

fn parts(path: &str) -> Vec<String> {
    path.split('/').filter(|p| !p.is_empty()).map(|p| p.to_string()).collect()
}

fn path(text: &str) -> TreePath {
    TreePath::from_components(parts(text))
}

impl Disk {
    fn new() -> Disk {
        let mut listings = HashMap::new();
        listings.insert(Vec::new(), Vec::new());
        Disk { listings, files: HashMap::new(), clock: 0 }
    }

    fn holds(&self, at: &[String]) -> bool {
        self.listings.contains_key(at) || self.files.contains_key(at)
    }

    fn enter(&mut self, at: &[String]) -> bool {
        let (name, parent) = match at.split_last() {
            Some(split) => split,
            None => return false,
        };
        match self.listings.get_mut(parent) {
            Some(entries) => {
                if !entries.contains(name) {
                    entries.push(name.clone());
                }
                true
            }
            None => false,
        }
    }

    fn create_dir(&mut self, at: &[String]) -> bool {
        if self.holds(at) || !self.enter(at) {
            return false;
        }
        self.listings.insert(at.to_vec(), Vec::new());
        true
    }

    fn write(&mut self, at: &[String], content: &[u8]) -> bool {
        if self.listings.contains_key(at) || !self.enter(at) {
            return false;
        }
        self.clock += 1;
        self.files.insert(at.to_vec(), (content.to_vec(), self.clock));
        true
    }

    fn copy(&mut self, from: &[String], to: &[String]) -> bool {
        match self.files.get(from).map(|f| f.0.clone()) {
            Some(content) => self.write(to, &content),
            None => false,
        }
    }

    fn read(&self, at: &str) -> Option<Vec<u8>> {
        self.files.get(&parts(at)).map(|f| f.0.clone())
    }

    fn mkdir(&mut self, at: &str) {
        assert!(self.create_dir(&parts(at)));
    }

    fn put(&mut self, at: &str, content: &[u8]) {
        assert!(self.write(&parts(at), content));
    }

    fn answer(&self, request: &Request) -> Response {
        match request {
            Request::List { source } => match self.listings.get(&source.components) {
                Some(names) => Response::Listing(
                    names
                        .iter()
                        .map(|name| {
                            let mut at = source.components.clone();
                            at.push(name.clone());
                            DirEntry { name: name.clone(), is_directory: self.listings.contains_key(&at) }
                        })
                        .collect(),
                ),
                None => Response::NotADirectory,
            },
            Request::Exists { target } => Response::Exists(self.holds(&target.components)),
            Request::Modified { source, target } => {
                match (self.files.get(&source.components), self.files.get(&target.components)) {
                    (Some(s), Some(t)) => Response::Modified { source: s.1, target: t.1 },
                    _ => Response::Failed,
                }
            }
        }
    }
}

fn get_files_and_directories(disk: &Disk, source: &str, target: &str, skip: &[&str]) -> FilesAndDirectories {
    let mut excluded = ExclusionSet::new();
    for s in skip {
        excluded.insert(path(s));
    }
    let mut differ = TreeDiffer::new(path(source), path(target), excluded);
    while let Some(request) = differ.request() {
        differ.respond(disk.answer(&request));
    }
    differ.finish().unwrap()
}

fn create_directories(disk: &mut Disk, list: &Vec<DirectoryToCreate>) -> Vec<DirectoryToCreate> {
    let mut applier = Applier::new(list.clone());
    loop {
        let created = match applier.current() {
            Some(directory) => disk.create_dir(&directory.path.components),
            None => break,
        };
        applier.record(created);
    }
    applier.finish()
}

fn copy_files(disk: &mut Disk, list: &Vec<FileToCopy>) -> Vec<FileToCopy> {
    let mut applier = Applier::new(list.clone());
    loop {
        let copied = match applier.current() {
            Some(file) => disk.copy(&file.source.components, &file.target.components),
            None => break,
        };
        applier.record(copied);
    }
    applier.finish()
}

fn directory(at: &str) -> DirectoryToCreate {
    DirectoryToCreate { path: path(at) }
}

fn copy_of(source: &str, target: &str) -> FileToCopy {
    FileToCopy { source: path(source), target: path(target) }
}

fn check_create_directories(root: &str) {
    let mut disk = Disk::new();
    disk.mkdir(root);
    disk.mkdir(&format!("{root}/existing_dir"));

    let test_input = vec![
        directory(&format!("{root}/test_path_1")),
        directory(&format!("{root}/test_path_2")),
        directory(&format!("{root}/test_path_2/inner_test_path_2_1")),
        directory(&format!("{root}/test_path_2/inner_test_path_2_2")),
        directory(&format!("{root}/existing_dir")),
        directory(&format!("{root}/test_path_3/inner_test_path_3_1")),
    ];
    let expected_existing_directories = vec![
        format!("{root}/test_path_1"),
        format!("{root}/test_path_2"),
        format!("{root}/test_path_2/inner_test_path_2_1"),
        format!("{root}/test_path_2/inner_test_path_2_2"),
        format!("{root}/existing_dir"),
    ];
    let expected_failed_directories = vec![
        directory(&format!("{root}/existing_dir")),
        directory(&format!("{root}/test_path_3/inner_test_path_3_1")),
    ];

    let result = create_directories(&mut disk, &test_input);

    assert_eq!(result, expected_failed_directories);
    for i in expected_existing_directories.iter() {
        assert!(disk.listings.contains_key(&parts(i)));
    }
    assert!(!disk.holds(&parts(&format!("{root}/test_path_3/inner_test_path_3_1"))));
}

#[test]
fn file_handling_test_create_directories() {
    check_create_directories("test_dir_create_directories");
}

#[test]
fn main_test_create_directories() {
    check_create_directories("test_dir");
}

#[test]
fn test_copy_files() {
    let mut disk = Disk::new();
    disk.mkdir("test_dir_copy_files");
    disk.mkdir("test_dir_copy_files/source_dir");
    disk.mkdir("test_dir_copy_files/source_dir/subdir_1");
    disk.mkdir("test_dir_copy_files/source_dir/subdir_2");
    disk.mkdir("test_dir_copy_files/target_dir");
    disk.mkdir("test_dir_copy_files/target_dir/subdir_1");

    let target_file_1 = "test_dir_copy_files/target_dir/test_1.txt";
    let source_file_1 = "test_dir_copy_files/source_dir/test_1.txt";
    let source_file_1_content = b"This is newer file 1 text";
    disk.put(target_file_1, b"This is older file 1 text");
    disk.put(source_file_1, source_file_1_content);

    let target_file_2 = "test_dir_copy_files/target_dir/subdir_1/test_2.txt";
    let source_file_2 = "test_dir_copy_files/source_dir/subdir_1/test_2.txt";
    let source_file_2_content = b"This is newer file 2 text";
    disk.put(target_file_2, b"This is older file 2 text");
    disk.put(source_file_2, source_file_2_content);

    let target_file_3 = "test_dir_copy_files/target_dir/subdir_1/test_3.txt";
    let source_file_3 = "test_dir_copy_files/source_dir/subdir_1/test_3.txt";
    let source_file_3_content = b"This is newer file 3 text";
    disk.put(source_file_3, source_file_3_content);

    let target_file_4 = "test_dir_copy_files/target_dir/subdir_2/test_4.txt";
    let source_file_4 = "test_dir_copy_files/source_dir/subdir_2/test_4.txt";
    let source_file_4_content = b"This is newer file 4 text";
    disk.put(source_file_4, source_file_4_content);

    let target_file_5 = "test_dir_copy_files/target_dir/subdir_1/test_5.txt";
    let source_file_5 = "test_dir_copy_files/source_dir/subdir_1/test_5.txt";

    let test_input = vec![
        copy_of(source_file_1, target_file_1),
        copy_of(source_file_2, target_file_2),
        copy_of(source_file_3, target_file_3),
        copy_of(source_file_4, target_file_4),
        copy_of(source_file_5, target_file_5),
    ];
    let expected_failed_files =
        vec![copy_of(source_file_4, target_file_4), copy_of(source_file_5, target_file_5)];

    let result = copy_files(&mut disk, &test_input);

    assert_eq!(result, expected_failed_files);

    assert_eq!(disk.read(source_file_1).unwrap(), source_file_1_content);
    assert_eq!(disk.read(source_file_2).unwrap(), source_file_2_content);
    assert_eq!(disk.read(source_file_3).unwrap(), source_file_3_content);
    assert_eq!(disk.read(source_file_4).unwrap(), source_file_4_content);

    assert_eq!(disk.read(target_file_1).unwrap(), source_file_1_content);
    assert_eq!(disk.read(target_file_2).unwrap(), source_file_2_content);
    assert_eq!(disk.read(target_file_3).unwrap(), source_file_3_content);

    assert!(!disk.holds(&parts(target_file_4)));
    assert!(!disk.holds(&parts(target_file_5)));
}

#[test]
fn copy_into_a_missing_directory_fails_alone() {
    let mut disk = Disk::new();
    disk.mkdir("s");
    disk.mkdir("s/gone");
    disk.mkdir("t");
    disk.put("s/one", b"1");
    disk.put("s/gone/two", b"2");
    disk.put("s/three", b"3");
    let batch = vec![
        copy_of("s/one", "t/one"),
        copy_of("s/gone/two", "t/gone/two"),
        copy_of("s/three", "t/three"),
    ];
    let failed = copy_files(&mut disk, &batch);
    assert_eq!(failed, vec![copy_of("s/gone/two", "t/gone/two")]);
    assert_eq!(disk.read("t/one").unwrap(), b"1");
    assert_eq!(disk.read("t/three").unwrap(), b"3");
    assert!(disk.read("t/gone/two").is_none());
}

fn scenario_disk() -> Disk {
    let mut disk = Disk::new();
    disk.mkdir("source");
    disk.mkdir("target");
    disk.mkdir("source/sub");
    disk.mkdir("target/sub");
    disk.put("target/sub/b.txt", b"stale");
    disk.put("source/sub/b.txt", b"fresh");
    disk.mkdir("source/sub2");
    disk.put("source/sub2/c.txt", b"c");
    disk.put("source/a.txt", b"a");
    disk.mkdir("target/sub3");
    disk.put("target/sub3/relic.txt", b"relic");
    disk
}

fn apply(disk: &mut Disk, plan: FilesAndDirectories) -> (Vec<DirectoryToCreate>, Vec<FileToCopy>) {
    let mut applier = PlanApplier::new(plan);
    loop {
        let ok = match applier.next() {
            Step::CreateDirectory(d) => disk.create_dir(&d.path.components),
            Step::CopyFile(f) => disk.copy(&f.source.components, &f.target.components),
            Step::Done => break,
        };
        applier.record(ok);
    }
    applier.finish()
}

#[test]
fn diff_then_apply_mirrors_the_source_and_leaves_the_rest() {
    let mut disk = scenario_disk();
    let relic = disk.files[&parts("target/sub3/relic.txt")].clone();
    let plan = get_files_and_directories(&disk, "source", "target", &[]);
    assert_eq!(plan.directories, vec![directory("target/sub2")]);
    assert_eq!(
        plan.files,
        vec![
            copy_of("source/sub/b.txt", "target/sub/b.txt"),
            copy_of("source/sub2/c.txt", "target/sub2/c.txt"),
            copy_of("source/a.txt", "target/a.txt"),
        ]
    );
    let (failed_directories, failed_files) = apply(&mut disk, plan);
    assert!(failed_directories.is_empty());
    assert!(failed_files.is_empty());
    assert_eq!(disk.read("target/sub/b.txt").unwrap(), b"fresh");
    assert_eq!(disk.read("target/sub2/c.txt").unwrap(), b"c");
    assert_eq!(disk.read("target/a.txt").unwrap(), b"a");
    assert_eq!(disk.files[&parts("target/sub3/relic.txt")], relic);
}

#[test]
fn second_diff_after_apply_is_empty() {
    let mut disk = scenario_disk();
    let plan = get_files_and_directories(&disk, "source", "target", &[]);
    assert!(!plan.is_empty());
    let (failed_directories, failed_files) = apply(&mut disk, plan);
    assert!(failed_directories.is_empty() && failed_files.is_empty());
    let again = get_files_and_directories(&disk, "source", "target", &[]);
    assert_eq!(again, FilesAndDirectories::new());
}

#[test]
fn second_diff_after_apply_is_empty_with_exclusions() {
    let mut disk = scenario_disk();
    let skip = ["source/sub2"];
    let plan = get_files_and_directories(&disk, "source", "target", &skip);
    assert_eq!(plan.files.len(), 2);
    assert!(plan.directories.is_empty());
    apply(&mut disk, plan);
    assert!(!disk.holds(&parts("target/sub2")));
    assert!(get_files_and_directories(&disk, "source", "target", &skip).is_empty());
    assert!(!get_files_and_directories(&disk, "source", "target", &[]).is_empty());
}

#[test]
fn failed_directory_makes_the_copy_into_it_fail_and_both_are_reported() {
    let mut disk = Disk::new();
    disk.mkdir("s");
    disk.mkdir("t");
    disk.put("s/f", b"f");
    disk.put("s/g", b"g");
    let plan = FilesAndDirectories {
        files: vec![copy_of("s/f", "t/missing/d/f"), copy_of("s/g", "t/g")],
        directories: vec![directory("t/missing/d"), directory("t/made")],
    };
    let (failed_directories, failed_files) = apply(&mut disk, plan);
    assert_eq!(failed_directories, vec![directory("t/missing/d")]);
    assert_eq!(failed_files, vec![copy_of("s/f", "t/missing/d/f")]);
    assert!(disk.listings.contains_key(&parts("t/made")));
    assert_eq!(disk.read("t/g").unwrap(), b"g");
    assert!(!disk.holds(&parts("t/missing")));
}
