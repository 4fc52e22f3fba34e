use vstd::prelude::*;

use crate::bytes::bytes_eq;

verus! {

/// A region of one file owned by a branch: lines `start` up to, not
/// including, `end`, and the stable identity of the hunk it came from.
pub struct Claim {
    pub path: Vec<u8>,
    pub start: u64,
    pub end: u64,
    pub hunk_id: u64,
}

pub struct ClaimView {
    pub path: Seq<u8>,
    pub start: u64,
    pub end: u64,
    pub hunk_id: u64,
}

impl View for Claim {
    type V = ClaimView;

    open spec fn view(&self) -> ClaimView {
        ClaimView { path: self.path@, start: self.start, end: self.end, hunk_id: self.hunk_id }
    }
}

/// A virtual branch record.
pub struct VirtualBranch {
    pub id: u64,
    pub name: String,
    pub claims: Vec<Claim>,
    pub rank: u64,
    pub applied: bool,
    pub head: Option<u64>,
    pub conflicted: bool,
    pub upstream: Option<String>,
}

pub struct BranchView {
    pub id: u64,
    pub name: Seq<char>,
    pub claims: Seq<ClaimView>,
    pub rank: u64,
    pub applied: bool,
    pub head: Option<u64>,
    pub conflicted: bool,
    pub upstream: Option<Seq<char>>,
}

impl View for VirtualBranch {
    type V = BranchView;

    open spec fn view(&self) -> BranchView {
        BranchView {
            id: self.id,
            name: self.name@,
            claims: self.claims@.map_values(|c: Claim| c@),
            rank: self.rank,
            applied: self.applied,
            head: self.head,
            conflicted: self.conflicted,
            upstream: match self.upstream {
                Some(u) => Some(u@),
                None => None,
            },
        }
    }
}

/// Why an operation failed.
#[derive(Debug, PartialEq, Eq, Structural, Clone, Copy)]
pub enum BranchError {
    /// The repository has no commit to work from.
    RepositoryState,
    /// The object store failed to read or write.
    ObjectStoreIO,
    /// Another operation holds the repository.
    LockContention,
    /// A lifecycle transition's precondition does not hold.
    InvalidTransition,
    /// The branch records failed validation.
    RecordCorruption,
    /// The integration tree no longer matches the branches.
    IntegrationDrift,
}

pub open spec fn claims_overlap(a: ClaimView, b: ClaimView) -> bool {
    a.path == b.path && a.start < b.end && b.start < a.end
}

pub open spec fn branches_overlap(x: BranchView, y: BranchView) -> bool {
    exists|i: int, j: int|
        0 <= i < x.claims.len() && 0 <= j < y.claims.len() && #[trigger] claims_overlap(x.claims[i], y.claims[j])
}

/// A branch is in conflict when it is applied and some other applied branch
/// claims a region overlapping one of its own.
pub open spec fn in_conflict(bs: Seq<BranchView>, i: int) -> bool {
    bs[i].applied && exists|j: int|
        0 <= j < bs.len() && j != i && bs[j].applied && #[trigger] branches_overlap(bs[i], bs[j])
}

pub open spec fn set_conflicted(b: BranchView, c: bool) -> BranchView {
    BranchView { conflicted: c, ..b }
}

/// The records with every conflict flag recomputed from the claims.
pub open spec fn with_conflicts(bs: Seq<BranchView>) -> Seq<BranchView> {
    Seq::new(bs.len(), |i: int| set_conflicted(bs[i], in_conflict(bs, i)))
}

pub fn claim_overlaps(a: &Claim, b: &Claim) -> (r: bool)
    ensures
        r == claims_overlap(a@, b@),
{
    a.start < b.end && b.start < a.end && bytes_eq(&a.path, &b.path)
}

/// Whether any claim of `x` overlaps any claim of `y`.
pub fn branch_overlaps(x: &VirtualBranch, y: &VirtualBranch) -> (r: bool)
    ensures
        r == branches_overlap(x@, y@),
{
    let ghost xv = x@;
    let ghost yv = y@;
    let mut i: usize = 0;
    while i < x.claims.len()
        invariant
            0 <= i <= x.claims@.len(),
            xv == x@,
            yv == y@,
            forall|a: int, b: int| 0 <= a < i && 0 <= b < yv.claims.len() ==> !claims_overlap(xv.claims[a], yv.claims[b]),
        decreases x.claims@.len() - i,
    {
        let mut j: usize = 0;
        while j < y.claims.len()
            invariant
                0 <= i < x.claims@.len(),
                0 <= j <= y.claims@.len(),
                xv == x@,
                yv == y@,
                forall|a: int, b: int| 0 <= a < i && 0 <= b < yv.claims.len() ==> !claims_overlap(xv.claims[a], yv.claims[b]),
                forall|b: int| 0 <= b < j ==> !claims_overlap(xv.claims[i as int], yv.claims[b]),
            decreases y.claims@.len() - j,
        {
            if claim_overlaps(&x.claims[i], &y.claims[j]) {
                assert(claims_overlap(xv.claims[i as int], yv.claims[j as int]));
                return true;
            }
            j = j + 1;
        }
        i = i + 1;
    }
    false
}

pub open spec fn views(v: Seq<VirtualBranch>) -> Seq<BranchView> {
    v.map_values(|b: VirtualBranch| b@)
}

/// Whether the branch at `i` is in conflict with another applied branch.
pub fn conflicts_at(bs: &Vec<VirtualBranch>, i: usize) -> (r: bool)
    requires
        i < bs@.len(),
    ensures
        r == in_conflict(views(bs@), i as int),
{
    let ghost v = views(bs@);
    if !bs[i].applied {
        return false;
    }
    let mut j: usize = 0;
    while j < bs.len()
        invariant
            i < bs@.len(),
            0 <= j <= bs@.len(),
            v == views(bs@),
            v[i as int].applied,
            forall|k: int| 0 <= k < j && k != i && v[k].applied ==> !branches_overlap(v[i as int], v[k]),
        decreases bs@.len() - j,
    {
        if j != i && bs[j].applied && branch_overlaps(&bs[i], &bs[j]) {
            assert(v[j as int] == bs@[j as int]@);
            assert(branches_overlap(v[i as int], v[j as int]));
            return true;
        }
        j = j + 1;
    }
    false
}


/// Recomputes every conflict flag from the claims of the applied branches;
/// a flag clears once no overlap is left.
pub fn refresh_conflicts(bs: &mut Vec<VirtualBranch>)
    ensures
        views(final(bs)@) == with_conflicts(views(old(bs)@)),
{
    let ghost v0 = views(bs@);
    let mut flags: Vec<bool> = Vec::new();
    let mut i: usize = 0;
    while i < bs.len()
        invariant
            0 <= i <= bs@.len(),
            v0 == views(bs@),
            flags@.len() == i,
            forall|k: int| 0 <= k < i ==> flags@[k] == in_conflict(v0, k),
        decreases bs@.len() - i,
    {
        flags.push(conflicts_at(bs, i));
        i = i + 1;
    }
    let mut i: usize = 0;
    while i < bs.len()
        invariant
            0 <= i <= bs@.len(),
            bs@.len() == v0.len(),
            flags@.len() == v0.len(),
            forall|k: int| 0 <= k < v0.len() ==> flags@[k] == in_conflict(v0, k),
            forall|k: int| 0 <= k < i ==> views(bs@)[k] == set_conflicted(v0[k], flags@[k]),
            forall|k: int| i <= k < v0.len() ==> views(bs@)[k] == v0[k],
        decreases bs@.len() - i,
    {
        let ghost before = bs@;
        let mut b = bs.remove(i);
        b.conflicted = flags[i];
        bs.insert(i, b);
        proof {
            assert forall|k: int| 0 <= k < v0.len() && k != i implies views(bs@)[k] == views(before)[k] by {
                assert(bs@[k] == before[k]);
            }
            assert(views(bs@)[i as int] == set_conflicted(v0[i as int], flags@[i as int]));
            assert forall|k: int| 0 <= k < i + 1 implies views(bs@)[k] == set_conflicted(v0[k], flags@[k]) by {
                if k < i {
                    assert(views(bs@)[k] == views(before)[k]);
                }
            }
        }
        i = i + 1;
    }
    assert(views(bs@) =~= with_conflicts(v0));
}

pub open spec fn has_branch(bs: Seq<BranchView>, id: u64) -> bool {
    exists|k: int| 0 <= k < bs.len() && bs[k].id == id
}

pub open spec fn branch_index(bs: Seq<BranchView>, id: u64) -> int {
    choose|k: int| 0 <= k < bs.len() && bs[k].id == id
}

pub open spec fn unique_ids(bs: Seq<BranchView>) -> bool {
    forall|i: int, j: int| 0 <= i < bs.len() && 0 <= j < bs.len() && i != j ==> bs[i].id != bs[j].id
}

pub open spec fn set_applied(b: BranchView, a: bool) -> BranchView {
    BranchView { applied: a, ..b }
}

/// The record after a commit: its claims are history now, and its head is
/// the new commit.
pub open spec fn committed(b: BranchView, commit: u64) -> BranchView {
    BranchView { claims: Seq::empty(), head: Some(commit), ..b }
}


/// Two applied branches holding overlapping claims are both in conflict.
pub proof fn lemma_overlapping_claims_conflict(bs: Seq<BranchView>, i: int, j: int, a: int, b: int)
    requires
        0 <= i < bs.len(),
        0 <= j < bs.len(),
        i != j,
        bs[i].applied,
        bs[j].applied,
        0 <= a < bs[i].claims.len(),
        0 <= b < bs[j].claims.len(),
        claims_overlap(bs[i].claims[a], bs[j].claims[b]),
    ensures
        with_conflicts(bs)[i].conflicted,
        with_conflicts(bs)[j].conflicted,
{
    assert(branches_overlap(bs[i], bs[j]));
    assert(claims_overlap(bs[j].claims[b], bs[i].claims[a]));
    assert(branches_overlap(bs[j], bs[i]));
}

/// An applied branch none of whose claims overlaps a claim of another
/// applied branch is not in conflict, whatever it was flagged before.
pub proof fn lemma_disjoint_claims_no_conflict(bs: Seq<BranchView>, i: int)
    requires
        0 <= i < bs.len(),
        forall|j: int, a: int, b: int|
            0 <= j < bs.len() && j != i && bs[j].applied && 0 <= a < bs[i].claims.len() && 0 <= b < bs[j].claims.len()
                ==> !#[trigger] claims_overlap(bs[i].claims[a], bs[j].claims[b]),
    ensures
        !with_conflicts(bs)[i].conflicted,
{
    if in_conflict(bs, i) {
        let j = choose|j: int| 0 <= j < bs.len() && j != i && bs[j].applied && #[trigger] branches_overlap(bs[i], bs[j]);
        let (a, b) = choose|a: int, b: int|
            0 <= a < bs[i].claims.len() && 0 <= b < bs[j].claims.len() && #[trigger] claims_overlap(bs[i].claims[a], bs[j].claims[b]);
        assert(!claims_overlap(bs[i].claims[a], bs[j].claims[b]));
    }
}

pub open spec fn add_claim(b: BranchView, c: ClaimView) -> BranchView {
    BranchView { claims: b.claims.push(c), ..b }
}

pub fn copy_claim(c: &Claim) -> (r: Claim)
    ensures
        r@ == c@,
{
    Claim { path: crate::bytes::copy_bytes(&c.path), start: c.start, end: c.end, hunk_id: c.hunk_id }
}

/// The set of virtual branch records of one repository.
pub struct BranchManager {
    pub branches: Vec<VirtualBranch>,
    pub next_id: u64,
}

impl BranchManager {
    pub open spec fn records(&self) -> Seq<BranchView> {
        views(self.branches@)
    }

    /// Ids are unique and below the next id to hand out.
    pub open spec fn wf(&self) -> bool {
        unique_ids(self.records()) && forall|k: int| 0 <= k < self.records().len() ==> #[trigger] self.records()[k].id < self.next_id
    }

    pub fn new() -> (r: Self)
        ensures
            r.wf(),
            r.records() == Seq::<BranchView>::empty(),
            r.next_id == 0,
    {
        let r = BranchManager { branches: Vec::new(), next_id: 0 };
        assert(r.records() =~= Seq::<BranchView>::empty());
        r
    }

    /// The position of the record with this id.
    pub fn find(&self, id: u64) -> (r: Option<usize>)
        requires
            self.wf(),
        ensures
            match r {
                Some(k) => k < self.records().len() && self.records()[k as int].id == id
                    && branch_index(self.records(), id) == k,
                None => !has_branch(self.records(), id),
            },
    {
        let ghost v = self.records();
        let mut i: usize = 0;
        while i < self.branches.len()
            invariant
                0 <= i <= self.branches@.len(),
                v == self.records(),
                unique_ids(v),
                forall|k: int| 0 <= k < i ==> v[k].id != id,
            decreases self.branches@.len() - i,
        {
            if self.branches[i].id == id {
                assert(v[i as int].id == id);
                let ghost c = branch_index(v, id);
                assert(v[c].id == id);
                assert(c == i);
                return Some(i);
            }
            i = i + 1;
        }
        None
    }

    /// Creates an unapplied branch with no claims, ranked after every other.
    pub fn create(&mut self, name: String) -> (id: u64)
        requires
            old(self).wf(),
            old(self).next_id < u64::MAX,
        ensures
            final(self).wf(),
            id == old(self).next_id,
            final(self).next_id == id + 1,
            final(self).records() == old(self).records().push(BranchView {
                id: id,
                name: name@,
                claims: Seq::empty(),
                rank: id,
                applied: false,
                head: None,
                conflicted: false,
                upstream: None,
            }),
    {
        let id = self.next_id;
        let b = VirtualBranch {
            id: id,
            name: name,
            claims: Vec::new(),
            rank: id,
            applied: false,
            head: None,
            conflicted: false,
            upstream: None,
        };
        self.branches.push(b);
        self.next_id = id + 1;
        assert(self.records()[self.records().len() - 1].claims =~= Seq::<ClaimView>::empty());
        assert(self.records() =~= old(self).records().push(BranchView {
            id: id,
            name: name@,
            claims: Seq::empty(),
            rank: id,
            applied: false,
            head: None,
            conflicted: false,
            upstream: None,
        }));
        id
    }

    /// Sets the applied flag of the record at `k`, then recomputes conflicts.
    fn set_applied_at(&mut self, k: usize, a: bool)
        requires
            old(self).wf(),
            k < old(self).records().len(),
        ensures
            final(self).wf(),
            final(self).next_id == old(self).next_id,
            final(self).records() == with_conflicts(
                old(self).records().update(k as int, set_applied(old(self).records()[k as int], a)),
            ),
    {
        let ghost before = self.records();
        let mut b = self.branches.remove(k);
        b.applied = a;
        self.branches.insert(k, b);
        assert(self.records() =~= before.update(k as int, set_applied(before[k as int], a)));
        refresh_conflicts(&mut self.branches);
    }

    /// Applies an unapplied, unconflicted branch. A branch whose claims
    /// overlap another applied branch's is applied all the same and marked
    /// conflicted.
    pub fn apply(&mut self, id: u64) -> (r: Result<(), BranchError>)
        requires
            old(self).wf(),
        ensures
            final(self).wf(),
            final(self).next_id == old(self).next_id,
            r.is_ok() <==> has_branch(old(self).records(), id)
                && !old(self).records()[branch_index(old(self).records(), id)].applied
                && !old(self).records()[branch_index(old(self).records(), id)].conflicted,
            r.is_err() ==> r == Err::<(), BranchError>(BranchError::InvalidTransition)
                && final(self).records() == old(self).records(),
            r.is_ok() ==> final(self).records() == with_conflicts(old(self).records().update(
                branch_index(old(self).records(), id),
                set_applied(old(self).records()[branch_index(old(self).records(), id)], true),
            )),
    {
        match self.find(id) {
            None => Err(BranchError::InvalidTransition),
            Some(k) => {
                if self.branches[k].applied || self.branches[k].conflicted {
                    Err(BranchError::InvalidTransition)
                } else {
                    self.set_applied_at(k, true);
                    Ok(())
                }
            },
        }
    }

    /// Unapplies an applied branch; its changes stay in the records.
    pub fn unapply(&mut self, id: u64) -> (r: Result<(), BranchError>)
        requires
            old(self).wf(),
        ensures
            final(self).wf(),
            final(self).next_id == old(self).next_id,
            r.is_ok() <==> has_branch(old(self).records(), id)
                && old(self).records()[branch_index(old(self).records(), id)].applied,
            r.is_err() ==> r == Err::<(), BranchError>(BranchError::InvalidTransition)
                && final(self).records() == old(self).records(),
            r.is_ok() ==> final(self).records() == with_conflicts(old(self).records().update(
                branch_index(old(self).records(), id),
                set_applied(old(self).records()[branch_index(old(self).records(), id)], false),
            )),
    {
        match self.find(id) {
            None => Err(BranchError::InvalidTransition),
            Some(k) => {
                if !self.branches[k].applied {
                    Err(BranchError::InvalidTransition)
                } else {
                    self.set_applied_at(k, false);
                    Ok(())
                }
            },
        }
    }

    /// Records that the owned changes of an applied, unconflicted branch
    /// were written as `commit`: its claims are cleared and its head moves.
    pub fn commit(&mut self, id: u64, commit: u64) -> (r: Result<(), BranchError>)
        requires
            old(self).wf(),
        ensures
            final(self).wf(),
            final(self).next_id == old(self).next_id,
            r.is_ok() <==> has_branch(old(self).records(), id)
                && old(self).records()[branch_index(old(self).records(), id)].applied
                && !old(self).records()[branch_index(old(self).records(), id)].conflicted,
            r.is_err() ==> r == Err::<(), BranchError>(BranchError::InvalidTransition)
                && final(self).records() == old(self).records(),
            r.is_ok() ==> final(self).records() == with_conflicts(old(self).records().update(
                branch_index(old(self).records(), id),
                committed(old(self).records()[branch_index(old(self).records(), id)], commit),
            )),
    {
        match self.find(id) {
            None => Err(BranchError::InvalidTransition),
            Some(k) => {
                if !self.branches[k].applied || self.branches[k].conflicted {
                    Err(BranchError::InvalidTransition)
                } else {
                    let ghost before = self.records();
                    let mut b = self.branches.remove(k);
                    b.claims = Vec::new();
                    b.head = Some(commit);
                    self.branches.insert(k, b);
                    assert(self.records()[k as int].claims =~= Seq::<ClaimView>::empty());
                    assert(self.records() =~= before.update(k as int, committed(before[k as int], commit)));
                    refresh_conflicts(&mut self.branches);
                    Ok(())
                }
            },
        }
    }

    /// Removes an unapplied branch record for good.
    pub fn delete(&mut self, id: u64) -> (r: Result<(), BranchError>)
        requires
            old(self).wf(),
        ensures
            final(self).wf(),
            final(self).next_id == old(self).next_id,
            r.is_ok() <==> has_branch(old(self).records(), id)
                && !old(self).records()[branch_index(old(self).records(), id)].applied,
            r.is_err() ==> r == Err::<(), BranchError>(BranchError::InvalidTransition)
                && final(self).records() == old(self).records(),
            r.is_ok() ==> final(self).records() == old(self).records().remove(branch_index(old(self).records(), id)),
    {
        match self.find(id) {
            None => Err(BranchError::InvalidTransition),
            Some(k) => {
                if self.branches[k].applied {
                    Err(BranchError::InvalidTransition)
                } else {
                    let ghost before = self.records();
                    self.branches.remove(k);
                    assert(self.records() =~= before.remove(k as int));
                    Ok(())
                }
            },
        }
    }

    /// Turns a branch with a head commit into an ordinary branch at that
    /// commit: the virtual record is gone for good, and the head returned.
    pub fn convert_to_real_branch(&mut self, id: u64) -> (r: Result<u64, BranchError>)
        requires
            old(self).wf(),
        ensures
            final(self).wf(),
            final(self).next_id == old(self).next_id,
            r.is_ok() <==> has_branch(old(self).records(), id)
                && old(self).records()[branch_index(old(self).records(), id)].head.is_some(),
            r.is_err() ==> r == Err::<u64, BranchError>(BranchError::InvalidTransition)
                && final(self).records() == old(self).records(),
            r.is_ok() ==> r == Ok::<u64, BranchError>(old(self).records()[branch_index(old(self).records(), id)].head.unwrap())
                && final(self).records() == with_conflicts(old(self).records().remove(branch_index(old(self).records(), id))),
    {
        match self.find(id) {
            None => Err(BranchError::InvalidTransition),
            Some(k) => match self.branches[k].head {
                None => Err(BranchError::InvalidTransition),
                Some(h) => {
                    let ghost before = self.records();
                    self.branches.remove(k);
                    assert(self.records() =~= before.remove(k as int));
                    refresh_conflicts(&mut self.branches);
                    Ok(h)
                },
            },
        }
    }

    /// Gives a hunk to a branch. Overlap with another applied branch's claim
    /// is not refused: both branches come out conflicted.
    pub fn claim(&mut self, id: u64, hunk: Claim) -> (r: Result<(), BranchError>)
        requires
            old(self).wf(),
        ensures
            final(self).wf(),
            final(self).next_id == old(self).next_id,
            r.is_ok() <==> has_branch(old(self).records(), id),
            r.is_err() ==> r == Err::<(), BranchError>(BranchError::InvalidTransition)
                && final(self).records() == old(self).records(),
            r.is_ok() ==> final(self).records() == with_conflicts(old(self).records().update(
                branch_index(old(self).records(), id),
                add_claim(old(self).records()[branch_index(old(self).records(), id)], hunk@),
            )),
    {
        match self.find(id) {
            None => Err(BranchError::InvalidTransition),
            Some(k) => {
                let ghost before = self.records();
                let ghost hv = hunk@;
                let mut b = self.branches.remove(k);
                b.claims.push(hunk);
                self.branches.insert(k, b);
                assert(self.records()[k as int].claims =~= before[k as int].claims.push(hv));
                assert(self.records() =~= before.update(k as int, add_claim(before[k as int], hv)));
                refresh_conflicts(&mut self.branches);
                Ok(())
            },
        }
    }
}

} // verus!
