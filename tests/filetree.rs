use bootupd::filetree::{apply_plan, FileMeta, FileOp, FileTree, FileTreeError};
use bootupd::named::Named;

fn file(path: &str, digest: &str, mode: u16) -> Named<FileMeta> {
    Named {
        name: path.to_string(),
        value: FileMeta {
            sha512: digest.to_string(),
            mode,
        },
    }
}

fn paths(t: &FileTree) -> Vec<String> {
    t.children.iter().map(|e| e.name.clone()).collect()
}

#[test]
fn tree_is_sorted_by_path() {
    let t = FileTree::from_entries(vec![
        file("fedora/shimx64.efi", "aa", 0o700),
        file("BOOT/BOOTX64.EFI", "bb", 0o700),
        file("fedora/grub.cfg", "cc", 0o644),
    ])
    .unwrap();
    assert_eq!(
        paths(&t),
        vec!["BOOT/BOOTX64.EFI", "fedora/grub.cfg", "fedora/shimx64.efi"]
    );
    assert_eq!(t.get("fedora/grub.cfg").map(|m| m.sha512.clone()), Some("cc".to_string()));
    assert!(t.get("missing").is_none());
}

#[test]
fn tree_rejects_bad_paths() {
    assert_eq!(
        FileTree::from_entries(vec![file("/abs", "1", 0)]).unwrap_err(),
        FileTreeError::InvalidPath("/abs".to_string())
    );
    assert_eq!(
        FileTree::from_entries(vec![file("a/../b", "1", 0)]).unwrap_err(),
        FileTreeError::InvalidPath("a/../b".to_string())
    );
    assert_eq!(
        FileTree::from_entries(vec![file("a/./b", "1", 0)]).unwrap_err(),
        FileTreeError::InvalidPath("a/./b".to_string())
    );
    assert_eq!(
        FileTree::from_entries(vec![file("x", "1", 0), file("x", "2", 0)]).unwrap_err(),
        FileTreeError::DuplicatePath("x".to_string())
    );
}

#[test]
fn diff_buckets_are_sorted() {
    let old = FileTree::from_entries(vec![file("b", "1", 0), file("a", "1", 0), file("c", "1", 0)]).unwrap();
    let new = FileTree::from_entries(vec![file("c", "2", 0), file("d", "1", 0), file("a", "1", 0), file("e", "1", 0)]).unwrap();
    let d = old.diff(&new);
    assert_eq!(d.additions, vec!["d", "e"]);
    assert_eq!(d.removals, vec!["b"]);
    assert_eq!(d.changes, vec!["c"]);
}

#[test]
fn relative_diff_never_adds() {
    let tree = FileTree::from_entries(vec![file("a", "1", 0), file("b", "1", 0)]).unwrap();
    let live = FileTree::from_entries(vec![file("a", "9", 0), file("zz-not-ours", "1", 0)]).unwrap();
    let d = tree.relative_diff_to(&live);
    assert!(d.additions.is_empty());
    assert_eq!(d.removals, vec!["b"]);
    assert_eq!(d.changes, vec!["a"]);
}

#[test]
fn full_copy_plan_reproduces_tree() {
    let t = FileTree::from_entries(vec![file("x/y", "1", 0o600), file("a", "2", 0o755)]).unwrap();
    let d = FileTree::empty().diff(&t);
    let ops = apply_plan(&d, &t).unwrap();
    let mut written: Vec<(String, String, u16)> = Vec::new();
    for op in ops {
        match op {
            FileOp::Write { path, meta } => written.push((path, meta.sha512, meta.mode)),
            FileOp::Remove { path } => panic!("unexpected removal of {path}"),
        }
    }
    assert_eq!(
        written,
        vec![
            ("a".to_string(), "2".to_string(), 0o755),
            ("x/y".to_string(), "1".to_string(), 0o600)
        ]
    );
}

#[test]
fn plan_orders_removals_first_and_needs_sources() {
    let old = FileTree::from_entries(vec![file("a", "1", 0), file("b", "1", 0)]).unwrap();
    let new = FileTree::from_entries(vec![file("a", "2", 0o644), file("c", "1", 0o644)]).unwrap();
    let d = old.diff(&new);
    let ops = apply_plan(&d, &new).unwrap();
    assert_eq!(ops.len(), 3);
    assert!(matches!(&ops[0], FileOp::Remove { path } if path == "b"));
    assert!(matches!(&ops[1], FileOp::Write { path, .. } if path == "c"));
    assert!(matches!(&ops[2], FileOp::Write { path, .. } if path == "a"));
    assert!(apply_plan(&d, &old).is_none());
}
