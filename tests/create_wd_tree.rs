use virtual_branches::tree::{reconcile, Snapshot, StagedEntry, Staging, TreeEntry};

const MODE: u32 = 0o100644;

fn entry(path: &str, content: &str) -> TreeEntry {
    TreeEntry { path: path.as_bytes().to_vec(), content: content.as_bytes().to_vec(), mode: MODE }
}

fn tree(files: &[(&str, &str)]) -> Snapshot {
    Snapshot { entries: files.iter().map(|(p, c)| entry(p, c)).collect() }
}

fn staging(files: &[(&str, &str)]) -> Staging {
    Staging {
        entries: files
            .iter()
            .map(|(p, c)| StagedEntry { path: p.as_bytes().to_vec(), content: c.as_bytes().to_vec() })
            .collect(),
    }
}

fn get<'a>(t: &'a Snapshot, path: &str) -> Option<&'a TreeEntry> {
    t.entries.iter().find(|e| e.path == path.as_bytes())
}

fn assert_tree_matches(t: &Snapshot, files: &[(&str, &[u8])]) {
    assert_eq!(t.entries.len(), files.len());
    for (p, c) in files {
        let e = get(t, p).expect("path missing from tree");
        assert_eq!(&e.content[..], *c);
        assert_eq!(e.mode, MODE);
    }
}

#[test]
fn index_new_worktree_delete() {
    let base = tree(&[]);
    let index = staging(&[("file1.txt", "content1")]);
    let disk = tree(&[]);
    let t = reconcile(&base, &index, &disk);
    assert_eq!(t.entries.len(), 0, "Tree should end up empty");
}

#[test]
fn index_modify_worktree_delete() {
    let base = tree(&[("file1.txt", "content1")]);
    let index = staging(&[("file1.txt", "content2")]);
    let disk = tree(&[]);
    let t = reconcile(&base, &index, &disk);
    assert_eq!(t.entries.len(), 0, "Tree should end up empty");
}

#[test]
fn worktree_delete() {
    let base = tree(&[("file1.txt", "content1")]);
    let index = staging(&[("file1.txt", "content1")]);
    let disk = tree(&[]);
    let t = reconcile(&base, &index, &disk);
    assert_eq!(t.entries.len(), 0, "Tree should end up empty");
}

#[test]
fn index_delete() {
    let base = tree(&[("file1.txt", "content1")]);
    let index = staging(&[]);
    let disk = tree(&[("file1.txt", "content1")]);
    let t = reconcile(&base, &index, &disk);
    // We should ignore whatever happens to the index
    assert_tree_matches(&t, &[("file1.txt", b"content1")]);
}

#[test]
fn index_delete_worktree_add() {
    let base = tree(&[("file1.txt", "content1")]);
    let index = staging(&[]);
    let disk = tree(&[("file1.txt", "content2")]);
    let t = reconcile(&base, &index, &disk);
    assert_tree_matches(&t, &[("file1.txt", b"content2")]);
}

#[test]
fn index_add() {
    let base = tree(&[]);
    let index = staging(&[("file1.txt", "content2")]);
    let disk = tree(&[("file1.txt", "content2")]);
    let t = reconcile(&base, &index, &disk);
    assert_tree_matches(&t, &[("file1.txt", b"content2")]);
}

#[test]
fn worktree_add() {
    let base = tree(&[]);
    let index = staging(&[]);
    let disk = tree(&[("file1.txt", "content2")]);
    let t = reconcile(&base, &index, &disk);
    assert_tree_matches(&t, &[("file1.txt", b"content2")]);
}

#[test]
fn index_add_worktree_modify() {
    let base = tree(&[]);
    let index = staging(&[("file1.txt", "content1")]);
    let disk = tree(&[("file1.txt", "content2")]);
    let t = reconcile(&base, &index, &disk);
    assert_tree_matches(&t, &[("file1.txt", b"content2")]);
}

#[test]
fn index_modify_worktree_modify() {
    let base = tree(&[("file1.txt", "content1")]);
    let index = staging(&[("file1.txt", "content2")]);
    let disk = tree(&[("file1.txt", "content3")]);
    let t = reconcile(&base, &index, &disk);
    assert_tree_matches(&t, &[("file1.txt", b"content3")]);
}

#[test]
fn lists_uncommited_changes() {
    let base = tree(&[]);
    let index = staging(&[]);
    let disk = tree(&[("file1.txt", "content1"), ("file2.txt", "content2")]);
    let t = reconcile(&base, &index, &disk);
    assert_tree_matches(&t, &[("file1.txt", b"content1"), ("file2.txt", b"content2")]);
}

#[test]
fn does_not_include_staged_but_deleted_files() {
    let base = tree(&[]);
    let index = staging(&[("file3.txt", "content2")]);
    let disk = tree(&[("file1.txt", "content1"), ("file2.txt", "content2")]);
    let t = reconcile(&base, &index, &disk);
    assert_tree_matches(&t, &[("file1.txt", b"content1"), ("file2.txt", b"content2")]);
    assert!(get(&t, "file3.txt").is_none());
}

#[test]
fn should_be_empty_after_checking_out_empty_tree() {
    let base = tree(&[("file1.txt", "content1"), ("file2.txt", "content2")]);
    let index = staging(&[]);
    let disk = tree(&[]);
    assert!(get(&disk, "file1.txt").is_none());
    assert!(get(&disk, "file2.txt").is_none());
    let t = reconcile(&base, &index, &disk);
    assert_eq!(t.entries.len(), 0);
}

#[test]
fn should_track_deleted_files() {
    let base = tree(&[("file1.txt", "content1"), ("file2.txt", "content2")]);
    let index = staging(&[]);
    let disk = tree(&[("file2.txt", "content2")]);
    let t = reconcile(&base, &index, &disk);
    assert!(get(&t, "file1.txt").is_none());
    assert!(get(&t, "file2.txt").is_some());
}

#[test]
fn should_not_change_index() {
    let base = tree(&[("file1.txt", "content1")]);
    let index = staging(&[]);
    assert_eq!(index.entries.len(), 0);
    let disk = tree(&[("file1.txt", "content1")]);
    let t = reconcile(&base, &index, &disk);
    assert_eq!(index.entries.len(), 0);
    assert_tree_matches(&t, &[("file1.txt", b"content1")]);
}
