use vstd::prelude::*;

use crate::branches::{
    add_claim, branch_index, claim_overlaps, claims_overlap, copy_claim, has_branch, refresh_conflicts, views,
    with_conflicts, BranchManager, BranchView, Claim, ClaimView, VirtualBranch,
};
use crate::bytes::bytes_eq;

verus! {

/// Two hunks have the same stable identity: same file, same hunk id.
pub open spec fn same_hunk(a: ClaimView, b: ClaimView) -> bool {
    a.path == b.path && a.hunk_id == b.hunk_id
}

/// The branch holds a claim on the hunk's identity.
pub open spec fn holds_hunk(b: BranchView, h: ClaimView) -> bool {
    exists|a: int| 0 <= a < b.claims.len() && #[trigger] same_hunk(b.claims[a], h)
}

/// Some applied branch holds a claim on the hunk's identity.
pub open spec fn held_by_applied(bs: Seq<BranchView>, h: ClaimView) -> bool {
    exists|k: int| 0 <= k < bs.len() && bs[k].applied && #[trigger] holds_hunk(bs[k], h)
}

/// The hunks of the diff that the branch owns, in diff order.
pub open spec fn owned_hunks(b: BranchView, diff: Seq<ClaimView>) -> Seq<ClaimView>
    decreases diff.len(),
{
    if diff.len() == 0 {
        Seq::empty()
    } else {
        let prev = owned_hunks(b, diff.drop_last());
        if holds_hunk(b, diff.last()) {
            prev.push(diff.last())
        } else {
            prev
        }
    }
}

/// The hunks of the diff that no applied branch owns, in diff order.
pub open spec fn unclaimed_hunks(bs: Seq<BranchView>, diff: Seq<ClaimView>) -> Seq<ClaimView>
    decreases diff.len(),
{
    if diff.len() == 0 {
        Seq::empty()
    } else {
        let prev = unclaimed_hunks(bs, diff.drop_last());
        if held_by_applied(bs, diff.last()) {
            prev
        } else {
            prev.push(diff.last())
        }
    }
}

pub open spec fn claim_views(cs: Seq<Claim>) -> Seq<ClaimView> {
    cs.map_values(|c: Claim| c@)
}

/// What one applied branch owns of the current diff.
pub struct BranchStatus {
    pub id: u64,
    pub hunks: Vec<Claim>,
}

/// The status of the working tree: per applied branch, in record order, the
/// hunks it owns; and the hunks that no applied branch owns.
pub struct Status {
    pub branches: Vec<BranchStatus>,
    pub unclaimed: Vec<Claim>,
}

/// The applied records, in record order, each with what it owns of the diff.
pub open spec fn applied_statuses(bs: Seq<BranchView>, diff: Seq<ClaimView>) -> Seq<(u64, Seq<ClaimView>)>
    decreases bs.len(),
{
    if bs.len() == 0 {
        Seq::empty()
    } else {
        let prev = applied_statuses(bs.drop_last(), diff);
        if bs.last().applied {
            prev.push((bs.last().id, owned_hunks(bs.last(), diff)))
        } else {
            prev
        }
    }
}

pub open spec fn status_view(s: Seq<BranchStatus>) -> Seq<(u64, Seq<ClaimView>)> {
    s.map_values(|b: BranchStatus| (b.id, claim_views(b.hunks@)))
}

pub fn same_hunk_exec(a: &Claim, b: &Claim) -> (r: bool)
    ensures
        r == same_hunk(a@, b@),
{
    a.hunk_id == b.hunk_id && bytes_eq(&a.path, &b.path)
}

/// Whether the branch holds a claim on the hunk's identity.
pub fn branch_holds(b: &VirtualBranch, h: &Claim) -> (r: bool)
    ensures
        r == holds_hunk(b@, h@),
{
    let ghost v = b@;
    let mut a: usize = 0;
    while a < b.claims.len()
        invariant
            0 <= a <= b.claims@.len(),
            v == b@,
            forall|c: int| 0 <= c < a ==> !same_hunk(v.claims[c], h@),
        decreases b.claims@.len() - a,
    {
        if same_hunk_exec(&b.claims[a], h) {
            assert(same_hunk(v.claims[a as int], h@));
            return true;
        }
        a = a + 1;
    }
    false
}

/// Whether some applied branch holds a claim on the hunk's identity.
pub fn applied_holds(bs: &Vec<VirtualBranch>, h: &Claim) -> (r: bool)
    ensures
        r == held_by_applied(views(bs@), h@),
{
    let ghost v = views(bs@);
    let mut k: usize = 0;
    while k < bs.len()
        invariant
            0 <= k <= bs@.len(),
            v == views(bs@),
            forall|j: int| 0 <= j < k && v[j].applied ==> !holds_hunk(v[j], h@),
        decreases bs@.len() - k,
    {
        if bs[k].applied && branch_holds(&bs[k], h) {
            assert(v[k as int] == bs@[k as int]@);
            return true;
        }
        k = k + 1;
    }
    false
}

/// The hunks of `diff` that the branch owns.
pub fn owned_by(b: &VirtualBranch, diff: &Vec<Claim>) -> (r: Vec<Claim>)
    ensures
        claim_views(r@) == owned_hunks(b@, claim_views(diff@)),
{
    let ghost d = claim_views(diff@);
    let mut out: Vec<Claim> = Vec::new();
    let mut i: usize = 0;
    while i < diff.len()
        invariant
            0 <= i <= diff@.len(),
            d == claim_views(diff@),
            claim_views(out@) == owned_hunks(b@, d.take(i as int)),
        decreases diff@.len() - i,
    {
        assert(d.take(i + 1).drop_last() =~= d.take(i as int));
        assert(d.take(i + 1).last() == diff@[i as int]@);
        let ghost prev = claim_views(out@);
        if branch_holds(b, &diff[i]) {
            out.push(copy_claim(&diff[i]));
            assert(claim_views(out@) =~= prev.push(diff@[i as int]@));
        }
        i = i + 1;
    }
    assert(d.take(d.len() as int) =~= d);
    out
}


/// Where a hunk of the current diff went.
#[derive(Debug, PartialEq, Eq, Structural, Clone, Copy)]
pub enum Assignment {
    /// The one branch that held the hunk keeps it, with its range updated.
    Kept(u64),
    /// The hunk was new and went to the default branch.
    Assigned(u64),
    /// No branch could take it without guessing: left unclaimed.
    Ambiguous,
}

/// `k` is the only branch holding a claim on the hunk's identity.
pub open spec fn sole_owner(bs: Seq<BranchView>, h: ClaimView, k: int) -> bool {
    0 <= k < bs.len() && holds_hunk(bs[k], h) && forall|j: int|
        0 <= j < bs.len() && #[trigger] holds_hunk(bs[j], h) ==> j == k
}

pub open spec fn has_owner(bs: Seq<BranchView>, h: ClaimView) -> bool {
    exists|k: int| 0 <= k < bs.len() && #[trigger] holds_hunk(bs[k], h)
}

/// The first claim of `cs` with the hunk's identity.
pub open spec fn first_match(cs: Seq<ClaimView>, h: ClaimView) -> int {
    choose|a: int| 0 <= a < cs.len() && same_hunk(cs[a], h) && forall|b: int| 0 <= b < a ==> !same_hunk(#[trigger] cs[b], h)
}

/// The branch with its first claim on the hunk's identity moved to the
/// hunk's current range.
pub open spec fn track_hunk(b: BranchView, h: ClaimView) -> BranchView {
    BranchView { claims: b.claims.update(first_match(b.claims, h), h), ..b }
}

/// Some applied branch other than the one at `k` claims a region
/// overlapping the hunk.
pub open spec fn overlaps_other_applied(bs: Seq<BranchView>, h: ClaimView, k: int) -> bool {
    exists|j: int, c: int|
        0 <= j < bs.len() && j != k && bs[j].applied && 0 <= c < bs[j].claims.len() && #[trigger] claims_overlap(
            bs[j].claims[c],
            h,
        )
}

/// Whether an applied branch other than the one at `k` claims a region
/// overlapping the hunk.
fn overlaps_other(bs: &Vec<VirtualBranch>, h: &Claim, k: usize) -> (r: bool)
    ensures
        r == overlaps_other_applied(views(bs@), h@, k as int),
{
    let ghost v = views(bs@);
    let mut j: usize = 0;
    while j < bs.len()
        invariant
            0 <= j <= bs@.len(),
            v == views(bs@),
            forall|i: int, c: int|
                0 <= i < j && i != k && v[i].applied && 0 <= c < v[i].claims.len() ==> !#[trigger] claims_overlap(v[i].claims[c], h@),
        decreases bs@.len() - j,
    {
        if j != k && bs[j].applied {
            let mut c: usize = 0;
            while c < bs[j].claims.len()
                invariant
                    0 <= j < bs@.len(),
                    j != k,
                    v == views(bs@),
                    v[j as int].applied,
                    0 <= c <= v[j as int].claims.len(),
                    forall|i: int, c2: int|
                        0 <= i < j && i != k && v[i].applied && 0 <= c2 < v[i].claims.len() ==> !#[trigger] claims_overlap(v[i].claims[c2], h@),
                    forall|c2: int| 0 <= c2 < c ==> !claims_overlap(v[j as int].claims[c2], h@),
                decreases v[j as int].claims.len() - c,
            {
                if claim_overlaps(&bs[j].claims[c], h) {
                    assert(claims_overlap(v[j as int].claims[c as int], h@));
                    return true;
                }
                c = c + 1;
            }
        }
        j = j + 1;
    }
    false
}


/// The position of the first claim of the branch with the hunk's identity.
fn first_claim_of(b: &VirtualBranch, h: &Claim) -> (r: usize)
    requires
        holds_hunk(b@, h@),
    ensures
        r < b@.claims.len(),
        same_hunk(b@.claims[r as int], h@),
        forall|c: int| 0 <= c < r ==> !same_hunk(#[trigger] b@.claims[c], h@),
{
    let ghost v = b@;
    let mut a: usize = 0;
    while a < b.claims.len()
        invariant
            0 <= a <= b.claims@.len(),
            v == b@,
            holds_hunk(v, h@),
            forall|c: int| 0 <= c < a ==> !same_hunk(#[trigger] v.claims[c], h@),
        decreases b.claims@.len() - a,
    {
        if same_hunk_exec(&b.claims[a], h) {
            return a;
        }
        a = a + 1;
    }
    proof {
        let w = choose|c: int| 0 <= c < v.claims.len() && #[trigger] same_hunk(v.claims[c], h@);
        assert(!same_hunk(v.claims[w], h@));
    }
    0
}


/// The hunk's identity occurs in the diff.
pub open spec fn in_diff(diff: Seq<ClaimView>, h: ClaimView) -> bool {
    exists|i: int| 0 <= i < diff.len() && #[trigger] same_hunk(diff[i], h)
}

/// The claims whose hunks still exist in the diff, in order.
pub open spec fn live_claims(cs: Seq<ClaimView>, diff: Seq<ClaimView>) -> Seq<ClaimView>
    decreases cs.len(),
{
    if cs.len() == 0 {
        Seq::empty()
    } else {
        let prev = live_claims(cs.drop_last(), diff);
        if in_diff(diff, cs.last()) {
            prev.push(cs.last())
        } else {
            prev
        }
    }
}

pub open spec fn prune_branch(b: BranchView, diff: Seq<ClaimView>) -> BranchView {
    BranchView { claims: live_claims(b.claims, diff), ..b }
}

/// Whether the hunk's identity occurs in the diff.
fn diff_has(diff: &Vec<Claim>, h: &Claim) -> (r: bool)
    ensures
        r == in_diff(claim_views(diff@), h@),
{
    let ghost d = claim_views(diff@);
    let mut i: usize = 0;
    while i < diff.len()
        invariant
            0 <= i <= diff@.len(),
            d == claim_views(diff@),
            forall|j: int| 0 <= j < i ==> !#[trigger] same_hunk(d[j], h@),
        decreases diff@.len() - i,
    {
        if same_hunk_exec(&diff[i], h) {
            assert(same_hunk(d[i as int], h@));
            return true;
        }
        i = i + 1;
    }
    false
}

/// The claims of `cs` whose hunks still exist in the diff.
fn keep_live(cs: &Vec<Claim>, diff: &Vec<Claim>) -> (r: Vec<Claim>)
    ensures
        claim_views(r@) == live_claims(claim_views(cs@), claim_views(diff@)),
{
    let ghost c = claim_views(cs@);
    let ghost d = claim_views(diff@);
    let mut out: Vec<Claim> = Vec::new();
    let mut i: usize = 0;
    while i < cs.len()
        invariant
            0 <= i <= cs@.len(),
            c == claim_views(cs@),
            d == claim_views(diff@),
            claim_views(out@) == live_claims(c.take(i as int), d),
        decreases cs@.len() - i,
    {
        assert(c.take(i + 1).drop_last() =~= c.take(i as int));
        assert(c.take(i + 1).last() == cs@[i as int]@);
        let ghost prev = claim_views(out@);
        if diff_has(diff, &cs[i]) {
            out.push(copy_claim(&cs[i]));
            assert(claim_views(out@) =~= prev.push(cs@[i as int]@));
        }
        i = i + 1;
    }
    assert(c.take(c.len() as int) =~= c);
    out
}

impl BranchManager {
    /// Moves the claim at (`k`, `a`) to the hunk's range.
    fn retrack(&mut self, k: usize, a: usize, hunk: Claim)
        requires
            old(self).wf(),
            k < old(self).records().len(),
            a < old(self).records()[k as int].claims.len(),
        ensures
            final(self).wf(),
            final(self).next_id == old(self).next_id,
            final(self).records() == with_conflicts(old(self).records().update(
                k as int,
                BranchView { claims: old(self).records()[k as int].claims.update(a as int, hunk@), ..old(self).records()[k as int] },
            )),
    {
        let ghost before = self.records();
        let ghost hv = hunk@;
        let mut b = self.branches.remove(k);
        b.claims.remove(a);
        b.claims.insert(a, hunk);
        self.branches.insert(k, b);
        assert(self.records()[k as int].claims =~= before[k as int].claims.update(a as int, hv));
        assert(self.records() =~= before.update(
            k as int,
            BranchView { claims: before[k as int].claims.update(a as int, hv), ..before[k as int] },
        ));
        refresh_conflicts(&mut self.branches);
    }

    /// Gives a hunk of the current diff an owner. A hunk whose identity one
    /// branch already holds stays with it, at its new range; one held by
    /// several branches is ambiguous. A new hunk goes to the default branch
    /// unless it overlaps a claim of another applied branch.
    pub fn assign_hunk(&mut self, hunk: Claim, default: u64) -> (r: Assignment)
        requires
            old(self).wf(),
        ensures
            final(self).wf(),
            final(self).next_id == old(self).next_id,
            (exists|k: int| sole_owner(old(self).records(), hunk@, k)) ==> {
                let k = choose|k: int| sole_owner(old(self).records(), hunk@, k);
                &&& r == Assignment::Kept(old(self).records()[k].id)
                &&& final(self).records() == with_conflicts(
                    old(self).records().update(k, track_hunk(old(self).records()[k], hunk@)),
                )
            },
            has_owner(old(self).records(), hunk@) && !(exists|k: int| sole_owner(old(self).records(), hunk@, k))
                ==> r == Assignment::Ambiguous && final(self).records() == old(self).records(),
            !has_owner(old(self).records(), hunk@) ==> {
                let bs = old(self).records();
                let d = branch_index(bs, default);
                if has_branch(bs, default) && !overlaps_other_applied(bs, hunk@, d) {
                    &&& r == Assignment::Assigned(default)
                    &&& final(self).records() == with_conflicts(bs.update(d, add_claim(bs[d], hunk@)))
                } else {
                    &&& r == Assignment::Ambiguous
                    &&& final(self).records() == bs
                }
            },
    {
        let ghost v = self.records();
        let ghost hv = hunk@;
        let mut owner: Option<usize> = None;
        let mut several = false;
        let mut k: usize = 0;
        while k < self.branches.len()
            invariant
                0 <= k <= self.branches@.len(),
                v == self.records(),
                hv == hunk@,
                owner.is_none() ==> !several && forall|j: int| 0 <= j < k ==> !holds_hunk(v[j], hv),
                owner.is_some() ==> owner.unwrap() < k && holds_hunk(v[owner.unwrap() as int], hv),
                owner.is_some() && !several ==> forall|j: int| 0 <= j < k && holds_hunk(v[j], hv) ==> j == owner.unwrap(),
                several ==> owner.is_some() && exists|j: int| 0 <= j < k && j != owner.unwrap() && holds_hunk(v[j], hv),
            decreases self.branches@.len() - k,
        {
            if branch_holds(&self.branches[k], &hunk) {
                assert(v[k as int] == self.branches@[k as int]@);
                if owner.is_none() {
                    owner = Some(k);
                } else {
                    several = true;
                }
            }
            k = k + 1;
        }
        if several {
            proof {
                let o = owner.unwrap() as int;
                let j = choose|j: int| 0 <= j < v.len() && j != o && holds_hunk(v[j], hv);
                assert(has_owner(v, hv));
                assert forall|k2: int| !sole_owner(v, hv, k2) by {
                    if sole_owner(v, hv, k2) {
                        assert(holds_hunk(v[o], hv));
                        assert(holds_hunk(v[j], hv));
                    }
                }
            }
            return Assignment::Ambiguous;
        }
        match owner {
            Some(o) => {
                proof {
                    assert(sole_owner(v, hv, o as int));
                    let c = choose|k2: int| sole_owner(v, hv, k2);
                    assert(c == o);
                }
                let a = first_claim_of(&self.branches[o], &hunk);
                proof {
                    let cs = v[o as int].claims;
                    assert(same_hunk(cs[a as int], hv));
                    let f = first_match(cs, hv);
                    assert(0 <= a < cs.len() && same_hunk(cs[a as int], hv) && forall|b: int| 0 <= b < a ==> !same_hunk(#[trigger] cs[b], hv));
                    assert(0 <= f < cs.len() && same_hunk(cs[f], hv) && forall|b: int| 0 <= b < f ==> !same_hunk(#[trigger] cs[b], hv));
                    if f < a {
                        assert(!same_hunk(cs[f], hv));
                    }
                    if a < f {
                        assert(!same_hunk(cs[a as int], hv));
                    }
                    assert(f == a);
                }
                let id = self.branches[o].id;
                self.retrack(o, a, hunk);
                Assignment::Kept(id)
            },
            None => {
                proof {
                    assert forall|k2: int| !sole_owner(v, hv, k2) by {}
                    assert(!has_owner(v, hv));
                }
                match self.find(default) {
                    None => Assignment::Ambiguous,
                    Some(d) => {
                        if overlaps_other(&self.branches, &hunk, d) {
                            Assignment::Ambiguous
                        } else {
                            let ghost before = self.records();
                            let mut b = self.branches.remove(d);
                            b.claims.push(hunk);
                            self.branches.insert(d, b);
                            assert(self.records()[d as int].claims =~= before[d as int].claims.push(hv));
                            assert(self.records() =~= before.update(d as int, add_claim(before[d as int], hv)));
                            refresh_conflicts(&mut self.branches);
                            Assignment::Assigned(default)
                        }
                    },
                }
            },
        }
    }

    /// Drops every claim whose hunk no longer exists in the current diff
    /// (its edit was reverted), then recomputes conflicts.
    pub fn drop_reverted(&mut self, diff: &Vec<Claim>)
        requires
            old(self).wf(),
        ensures
            final(self).wf(),
            final(self).next_id == old(self).next_id,
            final(self).records() == with_conflicts(Seq::new(
                old(self).records().len(),
                |k: int| prune_branch(old(self).records()[k], claim_views(diff@)),
            )),
    {
        let ghost v0 = self.records();
        let ghost d = claim_views(diff@);
        let mut k: usize = 0;
        while k < self.branches.len()
            invariant
                0 <= k <= self.branches@.len(),
                self.branches@.len() == v0.len(),
                d == claim_views(diff@),
                self.next_id == old(self).next_id,
                v0 == old(self).records(),
                old(self).wf(),
                forall|j: int| 0 <= j < k ==> self.records()[j] == prune_branch(v0[j], d),
                forall|j: int| k <= j < v0.len() ==> self.records()[j] == v0[j],
            decreases self.branches@.len() - k,
        {
            let ghost before = self.branches@;
            let mut b = self.branches.remove(k);
            let live = keep_live(&b.claims, diff);
            b.claims = live;
            self.branches.insert(k, b);
            proof {
                assert forall|j: int| 0 <= j < v0.len() && j != k implies self.records()[j] == views(before)[j] by {
                    assert(self.branches@[j] == before[j]);
                }
                assert(self.records()[k as int] == prune_branch(v0[k as int], d));
                assert forall|j: int| 0 <= j < k + 1 implies self.records()[j] == prune_branch(v0[j], d) by {
                    if j < k {
                        assert(self.records()[j] == views(before)[j]);
                    }
                }
            }
            k = k + 1;
        }
        let ghost pruned = Seq::new(v0.len(), |j: int| prune_branch(v0[j], d));
        assert(self.records() =~= pruned);
        refresh_conflicts(&mut self.branches);
        proof {
            assert forall|i: int, j: int| 0 <= i < pruned.len() && 0 <= j < pruned.len() && i != j
                implies self.records()[i].id != self.records()[j].id by {
                assert(v0[i].id != v0[j].id);
            }
            assert forall|i: int| 0 <= i < pruned.len() implies #[trigger] self.records()[i].id < self.next_id by {
                assert(v0[i].id < self.next_id);
            }
        }
    }
}

/// Computes, from the branch records and the current diff, what each applied
/// branch owns and what nobody owns. Nothing is kept between calls.
pub fn get_applied_status(bs: &Vec<VirtualBranch>, diff: &Vec<Claim>) -> (r: Status)
    ensures
        status_view(r.branches@) == applied_statuses(views(bs@), claim_views(diff@)),
        claim_views(r.unclaimed@) == unclaimed_hunks(views(bs@), claim_views(diff@)),
{
    let ghost v = views(bs@);
    let ghost d = claim_views(diff@);
    let mut branches: Vec<BranchStatus> = Vec::new();
    let mut k: usize = 0;
    while k < bs.len()
        invariant
            0 <= k <= bs@.len(),
            v == views(bs@),
            d == claim_views(diff@),
            status_view(branches@) == applied_statuses(v.take(k as int), d),
        decreases bs@.len() - k,
    {
        assert(v.take(k + 1).drop_last() =~= v.take(k as int));
        assert(v.take(k + 1).last() == bs@[k as int]@);
        let ghost prev = status_view(branches@);
        if bs[k].applied {
            let hunks = owned_by(&bs[k], diff);
            branches.push(BranchStatus { id: bs[k].id, hunks: hunks });
            assert(status_view(branches@) =~= prev.push((v[k as int].id, owned_hunks(v[k as int], d))));
        }
        k = k + 1;
    }
    assert(v.take(v.len() as int) =~= v);
    let mut unclaimed: Vec<Claim> = Vec::new();
    let mut i: usize = 0;
    while i < diff.len()
        invariant
            0 <= i <= diff@.len(),
            v == views(bs@),
            d == claim_views(diff@),
            claim_views(unclaimed@) == unclaimed_hunks(v, d.take(i as int)),
        decreases diff@.len() - i,
    {
        assert(d.take(i + 1).drop_last() =~= d.take(i as int));
        assert(d.take(i + 1).last() == diff@[i as int]@);
        let ghost prev = claim_views(unclaimed@);
        if !applied_holds(bs, &diff[i]) {
            unclaimed.push(copy_claim(&diff[i]));
            assert(claim_views(unclaimed@) =~= prev.push(diff@[i as int]@));
        }
        i = i + 1;
    }
    assert(d.take(d.len() as int) =~= d);
    Status { branches, unclaimed }
}

} // verus!
