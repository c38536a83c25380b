use dirsync::exclusion::ExclusionSet;
use dirsync::path::TreePath;
use dirsync::plan::{DirectoryToCreate, FileToCopy, FilesAndDirectories};

fn path(parts: &[&str]) -> TreePath {
    TreePath::from_components(parts.iter().map(|p| p.to_string()).collect())
}

#[test]
fn child_appends_one_component() {
    let base = path(&["home", "user"]);
    let child = base.child(&"notes.txt".to_string());
    assert_eq!(child, path(&["home", "user", "notes.txt"]));
    assert_eq!(child.depth(), 3);
    assert_eq!(base.depth(), 2);
    assert_eq!(TreePath::new().child(&"a".to_string()), path(&["a"]));
}

#[test]
fn paths_are_equal_by_their_components() {
    assert_eq!(path(&[]), TreePath::new());
    assert_eq!(path(&["a", "b"]), path(&["a", "b"]));
    assert_ne!(path(&["a", "b"]), path(&["a"]));
    assert_ne!(path(&["a"]), path(&["a", "b"]));
    assert_ne!(path(&["a", "b"]), path(&["a", "c"]));
    assert_ne!(path(&["a", "b"]), path(&["b", "a"]));
    assert_ne!(path(&["ab"]), path(&["a", "b"]));
}

#[test]
fn clone_is_the_same_path() {
    let one = path(&["x", "y", "z"]);
    let other = one.clone();
    assert_eq!(one, other);
    assert_eq!(other.components, vec!["x".to_string(), "y".to_string(), "z".to_string()]);
}

#[test]
fn exclusion_set_holds_what_was_inserted() {
    let mut set = ExclusionSet::new();
    assert!(!set.contains(&path(&["s", "a"])));
    set.insert(path(&["s", "a"]));
    set.insert(path(&["s", "b", "c"]));
    assert!(set.contains(&path(&["s", "a"])));
    assert!(set.contains(&path(&["s", "b", "c"])));
    assert!(!set.contains(&path(&["s", "b"])));
    assert!(!set.contains(&path(&["s"])));
    assert!(!set.contains(&path(&["s", "a", "x"])));
    set.insert(path(&["s", "a"]));
    assert!(set.contains(&path(&["s", "a"])));
}

#[test]
fn plans_are_equal_by_their_items_in_order() {
    let file = |s: &str, t: &str| FileToCopy { source: path(&[s]), target: path(&[t]) };
    let dir = |d: &str| DirectoryToCreate { path: path(&[d]) };
    let plan = || FilesAndDirectories {
        files: vec![file("a", "b"), file("c", "d")],
        directories: vec![dir("x"), dir("y")],
    };
    assert_eq!(plan(), plan());
    assert_eq!(file("a", "b").clone(), file("a", "b"));
    assert_eq!(dir("x").clone(), dir("x"));
    assert_ne!(file("a", "b"), file("a", "c"));
    assert_ne!(file("a", "b"), file("c", "b"));
    assert_ne!(dir("x"), dir("y"));
    let mut swapped = plan();
    swapped.files.swap(0, 1);
    assert_ne!(plan(), swapped);
    let mut shorter = plan();
    shorter.directories.pop();
    assert_ne!(plan(), shorter);
    let mut other = plan();
    other.directories[1] = dir("z");
    assert_ne!(plan(), other);
    assert_ne!(plan(), FilesAndDirectories::new());
}

#[test]
fn plan_grows_at_the_end() {
    let mut plan = FilesAndDirectories::new();
    assert!(plan.is_empty());
    plan.push_directory(path(&["t", "d"]));
    assert!(!plan.is_empty());
    plan.push_file(path(&["s", "f"]), path(&["t", "f"]));
    plan.push_file(path(&["s", "g"]), path(&["t", "g"]));
    plan.push_directory(path(&["t", "e"]));
    assert_eq!(
        plan,
        FilesAndDirectories {
            files: vec![
                FileToCopy { source: path(&["s", "f"]), target: path(&["t", "f"]) },
                FileToCopy { source: path(&["s", "g"]), target: path(&["t", "g"]) },
            ],
            directories: vec![
                DirectoryToCreate { path: path(&["t", "d"]) },
                DirectoryToCreate { path: path(&["t", "e"]) },
            ],
        }
    );
}
