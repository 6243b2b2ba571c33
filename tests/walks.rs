use multi_horizon::profiles::Listed;
use multi_horizon::walk::{child_path, CopyWalk, RemoveWalk, TreeOp, Visit};

fn entry(name: &str, is_dir: bool) -> Listed {
    Listed { name: name.to_string(), is_dir }
}

fn path(v: &[&str]) -> Vec<String> {
    v.iter().map(|s| s.to_string()).collect()
}

#[test]
fn child_path_appends_component() {
    assert_eq!(child_path(&path(&["a", "b"]), &"c".to_string()), path(&["a", "b", "c"]));
    assert_eq!(child_path(&Vec::new(), &"x".to_string()), path(&["x"]));
}

#[test]
fn copy_walk_visits_every_directory() {
    let mut walk = CopyWalk::new();
    let root = walk.next_dir().unwrap();
    assert!(root.is_empty());
    let ops = walk.visit(&root, &vec![entry("save.dat", false), entry("slots", true)]);
    assert_eq!(
        ops,
        vec![TreeOp::CopyFile(path(&["save.dat"])), TreeOp::MakeDir(path(&["slots"]))]
    );
    let sub = walk.next_dir().unwrap();
    assert_eq!(sub, path(&["slots"]));
    let ops = walk.visit(&sub, &vec![entry("one.sav", false)]);
    assert_eq!(ops, vec![TreeOp::CopyFile(path(&["slots", "one.sav"]))]);
    assert_eq!(walk.next_dir(), None);
}

#[test]
fn remove_walk_deletes_directories_after_content() {
    let mut walk = RemoveWalk::new();
    let root = match walk.next_visit() {
        Some(Visit::Enter(p)) => p,
        other => panic!("unexpected {:?}", other),
    };
    let ops = walk.enter(&root, &vec![entry("d", true), entry("f", false)]);
    assert_eq!(ops, vec![TreeOp::RemoveFile(path(&["f"]))]);
    assert_eq!(walk.next_visit(), Some(Visit::Enter(path(&["d"]))));
    let ops = walk.enter(&path(&["d"]), &vec![entry("g", false)]);
    assert_eq!(ops, vec![TreeOp::RemoveFile(path(&["d", "g"]))]);
    assert_eq!(walk.next_visit(), Some(Visit::Leave(path(&["d"]))));
    assert_eq!(walk.next_visit(), None);
}
