use vstd::prelude::*;

use crate::branches::{claim_overlaps, claims_overlap, views, BranchView, VirtualBranch};
use crate::bytes::bytes_eq;

verus! {

/// The state of one file across the applied branches.
#[derive(Debug, PartialEq, Eq, Clone)]
pub enum FileState {
    /// No applied branch claims a region of the file.
    Clean,
    /// Applied branches claim regions of the file, none overlapping another
    /// branch's; the first of them in record order is given.
    Claimed(u64),
    /// Applied branches claim overlapping regions of the file: the ids of
    /// every such branch, in record order.
    Conflicted(Vec<u64>),
}

pub enum FileStateView {
    Clean,
    Claimed(u64),
    Conflicted(Seq<u64>),
}

impl View for FileState {
    type V = FileStateView;

    open spec fn view(&self) -> FileStateView {
        match self {
            FileState::Clean => FileStateView::Clean,
            FileState::Claimed(id) => FileStateView::Claimed(*id),
            FileState::Conflicted(ids) => FileStateView::Conflicted(ids@),
        }
    }
}

/// The branch claims a region of the file at `p`.
pub open spec fn claims_file(b: BranchView, p: Seq<u8>) -> bool {
    exists|a: int| 0 <= a < b.claims.len() && #[trigger] b.claims[a].path == p
}

/// The applied branch at `k` claims a region of `p` that overlaps a claim of
/// another applied branch.
pub open spec fn conflicts_on(bs: Seq<BranchView>, k: int, p: Seq<u8>) -> bool {
    bs[k].applied && exists|j: int, a: int, b: int|
        0 <= j < bs.len() && j != k && bs[j].applied && 0 <= a < bs[k].claims.len() && 0 <= b < bs[j].claims.len()
            && bs[k].claims[a].path == p && #[trigger] claims_overlap(bs[k].claims[a], bs[j].claims[b])
}

pub open spec fn file_conflicted(bs: Seq<BranchView>, p: Seq<u8>) -> bool {
    exists|k: int| 0 <= k < bs.len() && #[trigger] conflicts_on(bs, k, p)
}

pub open spec fn applied_claimant(bs: Seq<BranchView>, k: int, p: Seq<u8>) -> bool {
    0 <= k < bs.len() && bs[k].applied && claims_file(bs[k], p)
}

/// The first applied branch, in record order, that claims a region of `p`.
pub open spec fn first_claimant(bs: Seq<BranchView>, p: Seq<u8>) -> int {
    choose|k: int| applied_claimant(bs, k, p) && forall|j: int| 0 <= j < k ==> !#[trigger] applied_claimant(bs, j, p)
}

/// The ids of the records before `n` that are in conflict on `p`, in order.
pub open spec fn conflict_ids(bs: Seq<BranchView>, p: Seq<u8>, n: int) -> Seq<u64>
    decreases n,
{
    if n <= 0 {
        Seq::empty()
    } else {
        let prev = conflict_ids(bs, p, n - 1);
        if conflicts_on(bs, n - 1, p) {
            prev.push(bs[n - 1].id)
        } else {
            prev
        }
    }
}

pub open spec fn file_state_of(bs: Seq<BranchView>, p: Seq<u8>) -> FileStateView {
    if file_conflicted(bs, p) {
        FileStateView::Conflicted(conflict_ids(bs, p, bs.len() as int))
    } else if exists|k: int| #[trigger] applied_claimant(bs, k, p) {
        FileStateView::Claimed(bs[first_claimant(bs, p)].id)
    } else {
        FileStateView::Clean
    }
}

/// `id` is the id of a record before `n` in conflict on `p`.
pub open spec fn names_conflicting(bs: Seq<BranchView>, p: Seq<u8>, n: int, id: u64) -> bool {
    exists|k: int| 0 <= k < n && #[trigger] conflicts_on(bs, k, p) && bs[k].id == id
}

/// The ids collected are exactly those of the records before `n` in conflict
/// on `p`.
pub proof fn lemma_conflict_ids(bs: Seq<BranchView>, p: Seq<u8>, n: int)
    requires
        0 <= n <= bs.len(),
    ensures
        forall|k: int| 0 <= k < n && #[trigger] conflicts_on(bs, k, p) ==> conflict_ids(bs, p, n).contains(bs[k].id),
        forall|i: int| 0 <= i < conflict_ids(bs, p, n).len() ==> names_conflicting(bs, p, n, #[trigger] conflict_ids(bs, p, n)[i]),
    decreases n,
{
    if n > 0 {
        lemma_conflict_ids(bs, p, n - 1);
        let prev = conflict_ids(bs, p, n - 1);
        let cur = conflict_ids(bs, p, n);
        assert forall|k: int| 0 <= k < n && #[trigger] conflicts_on(bs, k, p) implies cur.contains(bs[k].id) by {
            if k < n - 1 {
                let w = choose|w: int| 0 <= w < prev.len() && prev[w] == bs[k].id;
                assert(cur[w] == prev[w]);
            } else {
                assert(cur[cur.len() - 1] == bs[k].id);
            }
        }
        assert forall|i: int| 0 <= i < cur.len() implies names_conflicting(bs, p, n, #[trigger] cur[i]) by {
            if i < prev.len() {
                assert(cur[i] == prev[i]);
                assert(names_conflicting(bs, p, n - 1, prev[i]));
                let k = choose|k: int| 0 <= k < n - 1 && #[trigger] conflicts_on(bs, k, p) && bs[k].id == prev[i];
                assert(0 <= k < n && conflicts_on(bs, k, p) && bs[k].id == cur[i]);
            } else {
                assert(conflicts_on(bs, n - 1, p) && bs[n - 1].id == cur[i]);
            }
        }
    }
}

fn branch_claims_file(b: &VirtualBranch, p: &Vec<u8>) -> (r: bool)
    ensures
        r == claims_file(b@, p@),
{
    let ghost v = b@;
    let mut a: usize = 0;
    while a < b.claims.len()
        invariant
            0 <= a <= b.claims@.len(),
            v == b@,
            forall|c: int| 0 <= c < a ==> #[trigger] v.claims[c].path != p@,
        decreases b.claims@.len() - a,
    {
        if bytes_eq(&b.claims[a].path, p) {
            assert(v.claims[a as int].path == p@);
            return true;
        }
        a = a + 1;
    }
    false
}

/// Whether the applied branch at `k` claims a region of `p` overlapping a
/// claim of another applied branch.
fn conflicts_on_exec(bs: &Vec<VirtualBranch>, k: usize, p: &Vec<u8>) -> (r: bool)
    requires
        k < bs@.len(),
    ensures
        r == conflicts_on(views(bs@), k as int, p@),
{
    let ghost v = views(bs@);
    if !bs[k].applied {
        return false;
    }
    let mut a: usize = 0;
    while a < bs[k].claims.len()
        invariant
            k < bs@.len(),
            v == views(bs@),
            v[k as int].applied,
            0 <= a <= v[k as int].claims.len(),
            forall|j: int, a2: int, b: int|
                0 <= j < v.len() && j != k && v[j].applied && 0 <= a2 < a && 0 <= b < v[j].claims.len()
                    && v[k as int].claims[a2].path == p@ ==> !#[trigger] claims_overlap(v[k as int].claims[a2], v[j].claims[b]),
        decreases v[k as int].claims.len() - a,
    {
        if bytes_eq(&bs[k].claims[a].path, p) {
            let mut j: usize = 0;
            while j < bs.len()
                invariant
                    k < bs@.len(),
                    a < v[k as int].claims.len(),
                    v == views(bs@),
                    v[k as int].applied,
                    v[k as int].claims[a as int].path == p@,
                    0 <= j <= v.len(),
                    forall|j2: int, a2: int, b: int|
                        0 <= j2 < v.len() && j2 != k && v[j2].applied && 0 <= a2 < a && 0 <= b < v[j2].claims.len()
                            && v[k as int].claims[a2].path == p@ ==> !#[trigger] claims_overlap(v[k as int].claims[a2], v[j2].claims[b]),
                    forall|j2: int, b: int|
                        0 <= j2 < j && j2 != k && v[j2].applied && 0 <= b < v[j2].claims.len()
                            ==> !#[trigger] claims_overlap(v[k as int].claims[a as int], v[j2].claims[b]),
                decreases v.len() - j,
            {
                if j != k && bs[j].applied {
                    let mut b: usize = 0;
                    while b < bs[j].claims.len()
                        invariant
                            k < bs@.len(),
                            j < bs@.len(),
                            j != k,
                            a < v[k as int].claims.len(),
                            v == views(bs@),
                            v[k as int].applied,
                            v[k as int].claims[a as int].path == p@,
                            v[j as int].applied,
                            0 <= b <= v[j as int].claims.len(),
                            forall|b2: int| 0 <= b2 < b ==> !#[trigger] claims_overlap(v[k as int].claims[a as int], v[j as int].claims[b2]),
                        decreases v[j as int].claims.len() - b,
                    {
                        if claim_overlaps(&bs[k].claims[a], &bs[j].claims[b]) {
                            assert(claims_overlap(v[k as int].claims[a as int], v[j as int].claims[b as int]));
                            return true;
                        }
                        b = b + 1;
                    }
                }
                j = j + 1;
            }
        }
        a = a + 1;
    }
    false
}

/// The state of the file at `p`: conflicted where two applied branches
/// claim overlapping regions of it, claimed where applied branches claim it
/// without overlap, clean otherwise.
pub fn file_state(bs: &Vec<VirtualBranch>, p: &Vec<u8>) -> (r: FileState)
    ensures
        r@ == file_state_of(views(bs@), p@),
{
    let ghost v = views(bs@);
    let mut ids: Vec<u64> = Vec::new();
    let mut first: Option<usize> = None;
    let mut k: usize = 0;
    while k < bs.len()
        invariant
            0 <= k <= bs@.len(),
            v == views(bs@),
            ids@ == conflict_ids(v, p@, k as int),
            first.is_none() ==> forall|j: int| 0 <= j < k ==> !#[trigger] applied_claimant(v, j, p@),
            first.is_some() ==> first.unwrap() < k && applied_claimant(v, first.unwrap() as int, p@)
                && forall|j: int| 0 <= j < first.unwrap() ==> !#[trigger] applied_claimant(v, j, p@),
        decreases bs@.len() - k,
    {
        if conflicts_on_exec(bs, k, p) {
            ids.push(bs[k].id);
        }
        if first.is_none() && bs[k].applied && branch_claims_file(&bs[k], p) {
            assert(v[k as int] == bs@[k as int]@);
            first = Some(k);
        }
        k = k + 1;
    }
    proof {
        lemma_conflict_ids(v, p@, v.len() as int);
    }
    if ids.len() > 0 {
        proof {
            assert(names_conflicting(v, p@, v.len() as int, ids@[0]));
            let k = choose|k: int| 0 <= k < v.len() && #[trigger] conflicts_on(v, k, p@) && v[k].id == ids@[0];
            assert(file_conflicted(v, p@));
        }
        return FileState::Conflicted(ids);
    }
    proof {
        if file_conflicted(v, p@) {
            let k = choose|k: int| 0 <= k < v.len() && #[trigger] conflicts_on(v, k, p@);
            assert(ids@.contains(v[k].id));
        }
    }
    match first {
        None => {
            assert(!exists|j: int| #[trigger] applied_claimant(v, j, p@));
            FileState::Clean
        },
        Some(f) => {
            proof {
                let c = first_claimant(v, p@);
                assert(applied_claimant(v, f as int, p@));
                if c < f {
                    assert(!applied_claimant(v, c, p@));
                }
                if f < c {
                    assert(!applied_claimant(v, f as int, p@));
                }
            }
            FileState::Claimed(bs[f].id)
        },
    }
}

/// Two applied branches whose claims on one file overlap leave that file
/// conflicted, and both are among the branches it names.
pub proof fn lemma_overlap_conflicts_file(bs: Seq<BranchView>, i: int, j: int, a: int, b: int)
    requires
        0 <= i < bs.len(),
        0 <= j < bs.len(),
        i != j,
        bs[i].applied,
        bs[j].applied,
        0 <= a < bs[i].claims.len(),
        0 <= b < bs[j].claims.len(),
        claims_overlap(bs[i].claims[a], bs[j].claims[b]),
    ensures
        file_state_of(bs, bs[i].claims[a].path) == FileStateView::Conflicted(conflict_ids(bs, bs[i].claims[a].path, bs.len() as int)),
        conflict_ids(bs, bs[i].claims[a].path, bs.len() as int).contains(bs[i].id),
        conflict_ids(bs, bs[i].claims[a].path, bs.len() as int).contains(bs[j].id),
{
    let p = bs[i].claims[a].path;
    assert(conflicts_on(bs, i, p));
    assert(claims_overlap(bs[j].claims[b], bs[i].claims[a]));
    assert(conflicts_on(bs, j, p));
    lemma_conflict_ids(bs, p, bs.len() as int);
}

/// A file on which no two applied branches claim overlapping regions is not
/// conflicted.
pub proof fn lemma_disjoint_file_not_conflicted(bs: Seq<BranchView>, p: Seq<u8>)
    requires
        forall|i: int, j: int, a: int, b: int|
            0 <= i < bs.len() && 0 <= j < bs.len() && i != j && bs[i].applied && bs[j].applied && 0 <= a < bs[i].claims.len()
                && 0 <= b < bs[j].claims.len() && bs[i].claims[a].path == p ==> !#[trigger] claims_overlap(bs[i].claims[a], bs[j].claims[b]),
    ensures
        !(file_state_of(bs, p) is Conflicted),
{
    if file_conflicted(bs, p) {
        let k = choose|k: int| 0 <= k < bs.len() && #[trigger] conflicts_on(bs, k, p);
        let (j, a, b) = choose|j: int, a: int, b: int|
            0 <= j < bs.len() && j != k && bs[j].applied && 0 <= a < bs[k].claims.len() && 0 <= b < bs[j].claims.len()
                && bs[k].claims[a].path == p && #[trigger] claims_overlap(bs[k].claims[a], bs[j].claims[b]);
        assert(!claims_overlap(bs[k].claims[a], bs[j].claims[b]));
    }
}

} // verus!
