use virtual_branches::branches::{BranchError, BranchManager, Claim};
use virtual_branches::conflicts::{file_state, FileState};
use virtual_branches::integration::{update_gitbutler_integration, verify_branch};
use virtual_branches::ownership::{get_applied_status, Assignment};
use virtual_branches::tree::{classify, reconcile, Snapshot, StagedEntry, Staging, TreeAction, TreeEntry};

fn entry(path: &str, content: &str) -> TreeEntry {
    TreeEntry { path: path.as_bytes().to_vec(), content: content.as_bytes().to_vec(), mode: 0o100644 }
}

fn tree(files: &[(&str, &str)]) -> Snapshot {
    Snapshot { entries: files.iter().map(|(p, c)| entry(p, c)).collect() }
}

fn staged(files: &[(&str, &str)]) -> Staging {
    Staging {
        entries: files
            .iter()
            .map(|(p, c)| StagedEntry { path: p.as_bytes().to_vec(), content: c.as_bytes().to_vec() })
            .collect(),
    }
}

fn content(t: &Snapshot, path: &str) -> Option<Vec<u8>> {
    t.entries.iter().find(|e| e.path == path.as_bytes()).map(|e| e.content.clone())
}

fn claim(path: &str, start: u64, end: u64, hunk_id: u64) -> Claim {
    Claim { path: path.as_bytes().to_vec(), start, end, hunk_id }
}

fn flat(t: &Snapshot) -> Vec<(Vec<u8>, Vec<u8>, u32)> {
    t.entries.iter().map(|e| (e.path.clone(), e.content.clone(), e.mode)).collect()
}

fn conflicted(m: &BranchManager, id: u64) -> bool {
    m.branches.iter().find(|b| b.id == id).unwrap().conflicted
}

#[test]
fn staged_then_deleted_file_leaves_empty_tree() {
    let t = reconcile(&tree(&[]), &staged(&[("file1.txt", "content1")]), &tree(&[]));
    assert_eq!(t.entries.len(), 0);
}

#[test]
fn staged_removal_with_file_on_disk_keeps_disk_content() {
    let base = tree(&[("file1.txt", "content1")]);
    let t = reconcile(&base, &staged(&[]), &tree(&[("file1.txt", "content1")]));
    assert_eq!(content(&t, "file1.txt"), Some(b"content1".to_vec()));
    assert_eq!(t.entries.len(), 1);
    let gone = reconcile(&base, &staged(&[]), &tree(&[]));
    assert_eq!(gone.entries.len(), 0);
}

#[test]
fn worktree_add_flows_through() {
    let t = reconcile(&tree(&[]), &staged(&[]), &tree(&[("file1.txt", "content2")]));
    assert_eq!(content(&t, "file1.txt"), Some(b"content2".to_vec()));
}

#[test]
fn reconcile_twice_gives_identical_tree() {
    let base = tree(&[("a", "1"), ("b", "2"), ("c", "3")]);
    let index = staged(&[("a", "9"), ("d", "4")]);
    let disk = tree(&[("d", "4"), ("c", "3"), ("a", "1")]);
    let first = reconcile(&base, &index, &disk);
    let second = reconcile(&base, &index, &disk);
    assert_eq!(flat(&first), flat(&second));
    assert_eq!(flat(&first), flat(&tree(&[("a", "1"), ("c", "3"), ("d", "4")])));
    let again = reconcile(&first, &index, &disk);
    assert_eq!(flat(&again), flat(&first));
}

#[test]
fn staging_does_not_change_result() {
    let base = tree(&[("a", "1"), ("b", "2")]);
    let disk = tree(&[("a", "1"), ("e", "5")]);
    let one = reconcile(&base, &staged(&[]), &disk);
    let two = reconcile(&base, &staged(&[("a", "1"), ("b", "7"), ("z", "0")]), &disk);
    assert_eq!(flat(&one), flat(&two));
}

#[test]
fn classify_follows_disk() {
    let base = entry("f", "1");
    let same = entry("f", "1");
    let changed = entry("f", "2");
    let s = StagedEntry { path: b"f".to_vec(), content: b"1".to_vec() };
    assert!(matches!(classify(&base, Some(&s), Some(&same)), TreeAction::Keep));
    assert!(matches!(classify(&base, None, Some(&same)), TreeAction::Upsert));
    assert!(matches!(classify(&base, Some(&s), Some(&changed)), TreeAction::Upsert));
    assert!(matches!(classify(&base, Some(&s), None), TreeAction::Remove));
    let mut other_mode = entry("f", "1");
    other_mode.mode = 0o100755;
    assert!(matches!(classify(&base, Some(&s), Some(&other_mode)), TreeAction::Upsert));
}

#[test]
fn lifecycle_rejects_invalid_transitions() {
    let mut m = BranchManager::new();
    let a = m.create("feature".to_string());
    assert_eq!(a, 0);
    assert_eq!(m.apply(a), Ok(()));
    assert_eq!(m.apply(a), Err(BranchError::InvalidTransition));
    assert_eq!(m.delete(a), Err(BranchError::InvalidTransition));
    assert_eq!(m.apply(42), Err(BranchError::InvalidTransition));
    assert_eq!(m.unapply(a), Ok(()));
    assert_eq!(m.unapply(a), Err(BranchError::InvalidTransition));
    assert_eq!(m.commit(a, 7), Err(BranchError::InvalidTransition));
    assert_eq!(m.delete(a), Ok(()));
    assert_eq!(m.branches.len(), 0);
    assert_eq!(m.delete(a), Err(BranchError::InvalidTransition));
}

#[test]
fn commit_on_conflicted_branch_fails() {
    let mut m = BranchManager::new();
    let a = m.create("a".to_string());
    let b = m.create("b".to_string());
    m.apply(a).unwrap();
    m.apply(b).unwrap();
    m.claim(a, claim("f.txt", 1, 5, 10)).unwrap();
    m.claim(b, claim("f.txt", 4, 8, 11)).unwrap();
    assert!(conflicted(&m, a));
    assert_eq!(m.commit(a, 99), Err(BranchError::InvalidTransition));
    assert_eq!(m.commit(b, 99), Err(BranchError::InvalidTransition));
}

#[test]
fn commit_clears_claims_and_moves_head() {
    let mut m = BranchManager::new();
    let a = m.create("a".to_string());
    m.apply(a).unwrap();
    m.claim(a, claim("f.txt", 1, 5, 10)).unwrap();
    assert_eq!(m.commit(a, 1234), Ok(()));
    assert_eq!(m.branches[0].claims.len(), 0);
    assert_eq!(m.branches[0].head, Some(1234));
}

#[test]
fn disjoint_claims_do_not_conflict_and_overlap_does() {
    let mut m = BranchManager::new();
    let a = m.create("a".to_string());
    let b = m.create("b".to_string());
    m.apply(a).unwrap();
    m.apply(b).unwrap();
    m.claim(a, claim("f.txt", 1, 5, 10)).unwrap();
    m.claim(b, claim("f.txt", 5, 9, 11)).unwrap();
    assert!(!conflicted(&m, a));
    assert!(!conflicted(&m, b));
    m.claim(b, claim("f.txt", 3, 4, 12)).unwrap();
    assert!(conflicted(&m, a));
    assert!(conflicted(&m, b));
    // Unapplying one side clears the conflict of the other.
    m.unapply(b).unwrap();
    assert!(!conflicted(&m, a));
    assert!(!conflicted(&m, b));
}

#[test]
fn overlap_on_other_file_is_no_conflict() {
    let mut m = BranchManager::new();
    let a = m.create("a".to_string());
    let b = m.create("b".to_string());
    m.apply(a).unwrap();
    m.apply(b).unwrap();
    m.claim(a, claim("f.txt", 1, 5, 10)).unwrap();
    m.claim(b, claim("g.txt", 1, 5, 11)).unwrap();
    assert!(!conflicted(&m, a));
    assert!(!conflicted(&m, b));
}

#[test]
fn assign_hunk_keeps_assigns_and_refuses() {
    let mut m = BranchManager::new();
    let a = m.create("a".to_string());
    let b = m.create("b".to_string());
    m.apply(a).unwrap();
    m.apply(b).unwrap();
    assert_eq!(m.assign_hunk(claim("f.txt", 1, 5, 10), a), Assignment::Assigned(a));
    // Same identity, moved range: stays with its owner even with another default.
    assert_eq!(m.assign_hunk(claim("f.txt", 20, 25, 10), b), Assignment::Kept(a));
    assert_eq!(m.branches[0].claims[0].start, 20);
    assert_eq!(m.branches[0].claims[0].end, 25);
    // New hunk overlapping a's claim cannot go to b.
    assert_eq!(m.assign_hunk(claim("f.txt", 22, 30, 11), b), Assignment::Ambiguous);
    assert_eq!(m.branches[1].claims.len(), 0);
    // Non-overlapping new hunk goes to b.
    assert_eq!(m.assign_hunk(claim("f.txt", 40, 45, 12), b), Assignment::Assigned(b));
    // Unknown default branch.
    assert_eq!(m.assign_hunk(claim("g.txt", 1, 2, 13), 77), Assignment::Ambiguous);
}

#[test]
fn assign_hunk_held_by_two_branches_is_ambiguous() {
    let mut m = BranchManager::new();
    let a = m.create("a".to_string());
    let b = m.create("b".to_string());
    m.claim(a, claim("f.txt", 1, 5, 10)).unwrap();
    m.claim(b, claim("f.txt", 1, 5, 10)).unwrap();
    assert_eq!(m.assign_hunk(claim("f.txt", 2, 6, 10), a), Assignment::Ambiguous);
    assert_eq!(m.branches[0].claims[0].start, 1);
}

#[test]
fn drop_reverted_removes_missing_hunks() {
    let mut m = BranchManager::new();
    let a = m.create("a".to_string());
    m.claim(a, claim("f.txt", 1, 5, 10)).unwrap();
    m.claim(a, claim("f.txt", 8, 9, 11)).unwrap();
    m.drop_reverted(&vec![claim("f.txt", 8, 9, 11)]);
    assert_eq!(m.branches[0].claims.len(), 1);
    assert_eq!(m.branches[0].claims[0].hunk_id, 11);
}

#[test]
fn status_reports_owned_and_unclaimed() {
    let mut m = BranchManager::new();
    let a = m.create("a".to_string());
    let b = m.create("b".to_string());
    let c = m.create("c".to_string());
    m.apply(a).unwrap();
    m.apply(b).unwrap();
    m.claim(a, claim("f.txt", 1, 5, 10)).unwrap();
    m.claim(b, claim("g.txt", 1, 5, 20)).unwrap();
    m.claim(c, claim("h.txt", 1, 5, 30)).unwrap();
    let diff = vec![claim("f.txt", 2, 6, 10), claim("h.txt", 1, 5, 30), claim("g.txt", 1, 5, 20), claim("k.txt", 1, 2, 40)];
    let s = get_applied_status(&m.branches, &diff);
    assert_eq!(s.branches.len(), 2);
    assert_eq!(s.branches[0].id, a);
    assert_eq!(s.branches[0].hunks.len(), 1);
    assert_eq!(s.branches[0].hunks[0].start, 2);
    assert_eq!(s.branches[1].id, b);
    assert_eq!(s.branches[1].hunks[0].hunk_id, 20);
    let ids: Vec<u64> = s.unclaimed.iter().map(|h| h.hunk_id).collect();
    assert_eq!(ids, vec![30, 40]);
    let again = get_applied_status(&m.branches, &diff);
    assert_eq!(again.unclaimed.len(), s.unclaimed.len());
}

#[test]
fn integration_layers_owned_files_over_base() {
    let mut m = BranchManager::new();
    let a = m.create("a".to_string());
    let b = m.create("b".to_string());
    let c = m.create("c".to_string());
    m.apply(a).unwrap();
    m.apply(b).unwrap();
    m.claim(a, claim("f.txt", 1, 2, 1)).unwrap();
    m.claim(b, claim("new.txt", 1, 2, 2)).unwrap();
    m.claim(c, claim("g.txt", 1, 2, 3)).unwrap();
    m.claim(a, claim("gone.txt", 1, 2, 4)).unwrap();
    let base = tree(&[("f.txt", "old"), ("g.txt", "old"), ("gone.txt", "x")]);
    let working = tree(&[("f.txt", "new"), ("g.txt", "changed"), ("new.txt", "n")]);
    let t = update_gitbutler_integration(&base, &working, &m.branches);
    assert_eq!(flat(&t), flat(&tree(&[("f.txt", "new"), ("g.txt", "old"), ("new.txt", "n")])));
    assert_eq!(verify_branch(&t, &base, &working, &m.branches), Ok(()));
    // Reversing the ranks gives the same tree.
    m.branches[0].rank = 5;
    m.branches[1].rank = 1;
    let t2 = update_gitbutler_integration(&base, &working, &m.branches);
    assert_eq!(flat(&t), flat(&t2));
}

#[test]
fn verify_branch_reports_drift() {
    let mut m = BranchManager::new();
    let a = m.create("a".to_string());
    m.apply(a).unwrap();
    m.claim(a, claim("f.txt", 1, 2, 1)).unwrap();
    let base = tree(&[("f.txt", "old")]);
    let working = tree(&[("f.txt", "new")]);
    let stale = tree(&[("f.txt", "old")]);
    assert_eq!(verify_branch(&stale, &base, &working, &m.branches), Err(BranchError::IntegrationDrift));
    let short = tree(&[]);
    assert_eq!(verify_branch(&short, &base, &working, &m.branches), Err(BranchError::IntegrationDrift));
}

#[test]
fn file_state_tracks_claims() {
    let mut m = BranchManager::new();
    let a = m.create("a".to_string());
    let b = m.create("b".to_string());
    m.apply(a).unwrap();
    m.apply(b).unwrap();
    let f = b"f.txt".to_vec();
    assert_eq!(file_state(&m.branches, &f), FileState::Clean);
    m.claim(b, claim("f.txt", 10, 20, 1)).unwrap();
    assert_eq!(file_state(&m.branches, &f), FileState::Claimed(b));
    m.claim(a, claim("f.txt", 1, 10, 2)).unwrap();
    assert_eq!(file_state(&m.branches, &f), FileState::Claimed(a));
    m.claim(a, claim("f.txt", 15, 16, 3)).unwrap();
    assert_eq!(file_state(&m.branches, &f), FileState::Conflicted(vec![a, b]));
    assert_eq!(file_state(&m.branches, &b"g.txt".to_vec()), FileState::Clean);
    m.unapply(a).unwrap();
    assert_eq!(file_state(&m.branches, &f), FileState::Claimed(b));
}

#[test]
fn convert_to_real_branch_needs_a_head() {
    let mut m = BranchManager::new();
    let a = m.create("a".to_string());
    assert_eq!(m.convert_to_real_branch(a), Err(BranchError::InvalidTransition));
    m.apply(a).unwrap();
    m.commit(a, 55).unwrap();
    assert_eq!(m.convert_to_real_branch(a), Ok(55));
    assert_eq!(m.branches.len(), 0);
    assert_eq!(m.convert_to_real_branch(a), Err(BranchError::InvalidTransition));
}

#[test]
fn create_ranks_after_existing() {
    let mut m = BranchManager::new();
    let a = m.create("a".to_string());
    let b = m.create("b".to_string());
    assert_eq!((a, b), (0, 1));
    assert!(m.branches[1].rank > m.branches[0].rank);
    assert!(!m.branches[1].applied);
    assert_eq!(m.branches[1].claims.len(), 0);
    assert_eq!(m.branches[1].name, "b");
}

#[test]
fn conflicted_file_names_only_overlapping_branches() {
    let mut m = BranchManager::new();
    let a = m.create("a".to_string());
    let b = m.create("b".to_string());
    let c = m.create("c".to_string());
    m.apply(a).unwrap();
    m.apply(b).unwrap();
    m.apply(c).unwrap();
    m.claim(a, claim("f.txt", 50, 60, 1)).unwrap();
    m.claim(b, claim("f.txt", 1, 10, 2)).unwrap();
    m.claim(c, claim("f.txt", 5, 12, 3)).unwrap();
    let f = b"f.txt".to_vec();
    assert_eq!(file_state(&m.branches, &f), FileState::Conflicted(vec![b, c]));
    assert!(!conflicted(&m, a));
    assert!(conflicted(&m, b));
    assert!(conflicted(&m, c));
}
