use vstd::prelude::*;

use crate::branches::{views, BranchError, BranchView, VirtualBranch};
use crate::bytes::bytes_eq;
use crate::tree::{copy_entry, entry_at, find_path, has_path, unique_paths, EntryView, Snapshot, TreeEntry};

verus! {

/// Some applied branch claims a region of the file at `p`.
pub open spec fn claimed(bs: Seq<BranchView>, p: Seq<u8>) -> bool {
    exists|i: int, a: int|
        0 <= i < bs.len() && bs[i].applied && 0 <= a < bs[i].claims.len() && #[trigger] bs[i].claims[a].path == p
}

/// What the integration tree holds at `p`: the working tree's entry where an
/// applied branch owns the file, else the base entry.
pub open spec fn integrated_entry(
    base: Seq<EntryView>,
    working: Seq<EntryView>,
    bs: Seq<BranchView>,
    p: Seq<u8>,
) -> Option<EntryView> {
    if claimed(bs, p) {
        entry_at(working, p)
    } else {
        entry_at(base, p)
    }
}

/// Base paths in base order, each as the integration holds it.
pub open spec fn layered_base(base: Seq<EntryView>, working: Seq<EntryView>, bs: Seq<BranchView>) -> Seq<EntryView>
    decreases base.len(),
{
    if base.len() == 0 {
        Seq::empty()
    } else {
        let prev = layered_base(base.drop_last(), working, bs);
        let e = base.last();
        if !claimed(bs, e.path) {
            prev.push(e)
        } else if has_path(working, e.path) {
            prev.push(entry_at(working, e.path).unwrap())
        } else {
            prev
        }
    }
}

/// Owned files new relative to the base, in working-tree order.
pub open spec fn layered_new(working: Seq<EntryView>, base: Seq<EntryView>, bs: Seq<BranchView>) -> Seq<EntryView>
    decreases working.len(),
{
    if working.len() == 0 {
        Seq::empty()
    } else {
        let prev = layered_new(working.drop_last(), base, bs);
        let w = working.last();
        if claimed(bs, w.path) && !has_path(base, w.path) {
            prev.push(w)
        } else {
            prev
        }
    }
}

/// The integration tree: the owned files of all applied branches layered
/// over the base.
pub open spec fn integration_tree(base: Seq<EntryView>, working: Seq<EntryView>, bs: Seq<BranchView>) -> Seq<EntryView> {
    layered_base(base, working, bs) + layered_new(working, base, bs)
}


proof fn lemma_layered_base(b: Seq<EntryView>, w: Seq<EntryView>, bs: Seq<BranchView>)
    requires
        unique_paths(b),
        unique_paths(w),
    ensures
        unique_paths(layered_base(b, w, bs)),
        forall|i: int| 0 <= i < layered_base(b, w, bs).len() ==> has_path(b, #[trigger] layered_base(b, w, bs)[i].path)
            && integrated_entry(b, w, bs, layered_base(b, w, bs)[i].path) == Some(layered_base(b, w, bs)[i]),
        forall|p: Seq<u8>| has_path(b, p) && #[trigger] integrated_entry(b, w, bs, p).is_some() ==> has_path(layered_base(b, w, bs), p),
    decreases b.len(),
{
    if b.len() > 0 {
        let b2 = b.drop_last();
        assert(unique_paths(b2)) by {
            assert forall|i: int, j: int| 0 <= i < b2.len() && 0 <= j < b2.len() && i != j
                implies b2[i].path != b2[j].path by {
                assert(b[i] == b2[i] && b[j] == b2[j]);
            }
        }
        lemma_layered_base(b2, w, bs);
        let c2 = layered_base(b2, w, bs);
        let c = layered_base(b, w, bs);
        let e = b.last();
        let p = e.path;
        crate::tree::lemma_entry_at_index(b, b.len() - 1);
        assert forall|q: Seq<u8>| has_path(b2, q) implies q != p && has_path(b, q)
            && entry_at(b2, q) == entry_at(b, q) by {
            let m = choose|i: int| 0 <= i < b2.len() && b2[i].path == q;
            assert(b[m] == b2[m]);
            crate::tree::lemma_entry_at_index(b, m);
            crate::tree::lemma_entry_at_index(b2, m);
        }
        assert forall|q: Seq<u8>| has_path(b, q) implies has_path(b2, q) || q == p by {
            let m = choose|i: int| 0 <= i < b.len() && b[i].path == q;
            if m < b.len() - 1 {
                assert(b2[m].path == q);
            }
        }
        assert forall|q: Seq<u8>| q != p implies integrated_entry(b2, w, bs, q) == integrated_entry(b, w, bs, q) by {
            if has_path(b2, q) {
            } else if has_path(b, q) {
            }
        }
        let pushed = !claimed(bs, p) || has_path(w, p);
        if pushed {
            let x = c[c.len() - 1];
            assert(c == c2.push(x));
            assert(integrated_entry(b, w, bs, p) == Some(x));
            assert(has_path(c, p)) by {
                assert(c[c.len() - 1].path == p);
            }
        } else {
            assert(c == c2);
            assert(integrated_entry(b, w, bs, p).is_none());
        }
        assert forall|i: int| 0 <= i < c2.len() implies c2[i].path != p && has_path(b, #[trigger] c2[i].path) by {}
        assert forall|i: int| 0 <= i < c.len() implies has_path(b, #[trigger] c[i].path)
            && integrated_entry(b, w, bs, c[i].path) == Some(c[i]) by {
            if i < c2.len() {
                assert(c[i] == c2[i]);
            }
        }
        assert forall|q: Seq<u8>| has_path(b, q) && #[trigger] integrated_entry(b, w, bs, q).is_some() implies has_path(c, q) by {
            if q != p {
                assert(has_path(b2, q));
                assert(integrated_entry(b2, w, bs, q).is_some());
                assert(has_path(c2, q));
                let m = choose|i: int| 0 <= i < c2.len() && c2[i].path == q;
                assert(c[m] == c2[m]);
            }
        }
        assert forall|i: int, j: int| 0 <= i < c.len() && 0 <= j < c.len() && i != j
            implies c[i].path != c[j].path by {
            if i < c2.len() && j < c2.len() {
                assert(c[i] == c2[i] && c[j] == c2[j]);
            } else if i < c2.len() {
                assert(c[i] == c2[i]);
            } else if j < c2.len() {
                assert(c[j] == c2[j]);
            }
        }
    }
}


proof fn lemma_layered_new(w: Seq<EntryView>, b: Seq<EntryView>, bs: Seq<BranchView>)
    requires
        unique_paths(w),
    ensures
        unique_paths(layered_new(w, b, bs)),
        forall|i: int| 0 <= i < layered_new(w, b, bs).len() ==> !has_path(b, #[trigger] layered_new(w, b, bs)[i].path)
            && claimed(bs, layered_new(w, b, bs)[i].path) && w.contains(layered_new(w, b, bs)[i]),
        forall|p: Seq<u8>| #[trigger] claimed(bs, p) && !has_path(b, p) && has_path(w, p) ==> has_path(layered_new(w, b, bs), p),
    decreases w.len(),
{
    if w.len() > 0 {
        let w2 = w.drop_last();
        assert(unique_paths(w2)) by {
            assert forall|i: int, j: int| 0 <= i < w2.len() && 0 <= j < w2.len() && i != j
                implies w2[i].path != w2[j].path by {
                assert(w[i] == w2[i] && w[j] == w2[j]);
            }
        }
        lemma_layered_new(w2, b, bs);
        let a2 = layered_new(w2, b, bs);
        let a = layered_new(w, b, bs);
        let x = w.last();
        assert forall|i: int| 0 <= i < a2.len() implies #[trigger] a2[i].path != x.path && w.contains(a2[i]) by {
            let m = choose|m: int| 0 <= m < w2.len() && w2[m] == a2[i];
            assert(w[m] == a2[i]);
            assert(w[w.len() - 1] == x);
        }
        assert forall|q: Seq<u8>| has_path(w, q) implies has_path(w2, q) || q == x.path by {
            let m = choose|i: int| 0 <= i < w.len() && w[i].path == q;
            if m < w.len() - 1 {
                assert(w2[m].path == q);
            }
        }
        if claimed(bs, x.path) && !has_path(b, x.path) {
            assert(a == a2.push(x));
            assert(has_path(a, x.path)) by {
                assert(a[a.len() - 1].path == x.path);
            }
            assert forall|q: Seq<u8>| has_path(a2, q) implies has_path(a, q) by {
                let m = choose|i: int| 0 <= i < a2.len() && a2[i].path == q;
                assert(a[m] == a2[m]);
            }
            assert forall|i: int| 0 <= i < a.len() implies !has_path(b, #[trigger] a[i].path)
                && claimed(bs, a[i].path) && w.contains(a[i]) by {
                if i < a.len() - 1 {
                    assert(a[i] == a2[i]);
                } else {
                    assert(w[w.len() - 1] == a[i]);
                }
            }
            assert forall|i: int, j: int| 0 <= i < a.len() && 0 <= j < a.len() && i != j
                implies a[i].path != a[j].path by {
                if i < a.len() - 1 && j == a.len() - 1 {
                    assert(a2[i].path != x.path);
                } else if j < a.len() - 1 && i == a.len() - 1 {
                    assert(a2[j].path != x.path);
                }
            }
        } else {
            assert(a == a2);
        }
    }
}

/// The integration tree holds, at every path, the working tree's entry where
/// an applied branch owns the file and the base entry elsewhere, with no
/// path twice. Ranks play no part, so every order of the branches gives
/// the same tree.
pub proof fn lemma_integration_is_layered_union(base: Seq<EntryView>, working: Seq<EntryView>, bs: Seq<BranchView>)
    requires
        unique_paths(base),
        unique_paths(working),
    ensures
        unique_paths(integration_tree(base, working, bs)),
        forall|p: Seq<u8>| #[trigger] entry_at(integration_tree(base, working, bs), p)
            == integrated_entry(base, working, bs, p),
{
    lemma_layered_base(base, working, bs);
    lemma_layered_new(working, base, bs);
    let c = layered_base(base, working, bs);
    let a = layered_new(working, base, bs);
    let r = integration_tree(base, working, bs);
    assert forall|i: int| 0 <= i < r.len() implies integrated_entry(base, working, bs, #[trigger] r[i].path) == Some(r[i]) by {
        if i < c.len() {
            assert(r[i] == c[i]);
        } else {
            assert(r[i] == a[i - c.len()]);
            let x = a[i - c.len()];
            let m = choose|m: int| 0 <= m < working.len() && working[m] == x;
            crate::tree::lemma_entry_at_index(working, m);
        }
    }
    assert forall|i: int, j: int| 0 <= i < r.len() && 0 <= j < r.len() && i != j
        implies r[i].path != r[j].path by {
        if i < c.len() && j >= c.len() {
            assert(r[i] == c[i] && r[j] == a[j - c.len()]);
            assert(has_path(base, c[i].path));
            assert(!has_path(base, a[j - c.len()].path));
        } else if j < c.len() && i >= c.len() {
            assert(r[j] == c[j] && r[i] == a[i - c.len()]);
            assert(has_path(base, c[j].path));
            assert(!has_path(base, a[i - c.len()].path));
        } else if i < c.len() {
            assert(r[i] == c[i] && r[j] == c[j]);
        } else {
            assert(r[i] == a[i - c.len()] && r[j] == a[j - c.len()]);
        }
    }
    assert forall|p: Seq<u8>| #[trigger] entry_at(r, p) == integrated_entry(base, working, bs, p) by {
        if integrated_entry(base, working, bs, p).is_some() {
            if has_path(base, p) {
                assert(has_path(c, p));
                let m = choose|i: int| 0 <= i < c.len() && c[i].path == p;
                assert(r[m] == c[m]);
            } else {
                assert(claimed(bs, p));
                assert(has_path(working, p));
                assert(has_path(a, p));
                let m = choose|i: int| 0 <= i < a.len() && a[i].path == p;
                assert(r[c.len() + m] == a[m]);
            }
            assert(has_path(r, p));
            let k = choose|i: int| 0 <= i < r.len() && r[i].path == p;
            crate::tree::lemma_entry_at_index(r, k);
        } else if has_path(r, p) {
            let k = choose|i: int| 0 <= i < r.len() && r[i].path == p;
            assert(integrated_entry(base, working, bs, r[k].path) == Some(r[k]));
        }
    }
}


/// Records that differ only in ranks (or in anything but which branches are
/// applied and what they claim) give the same integration tree, path by path.
pub proof fn lemma_integration_ignores_ranks(
    base: Seq<EntryView>,
    working: Seq<EntryView>,
    bs1: Seq<BranchView>,
    bs2: Seq<BranchView>,
)
    requires
        unique_paths(base),
        unique_paths(working),
        bs1.len() == bs2.len(),
        forall|i: int| 0 <= i < bs1.len() ==> bs1[i].applied == bs2[i].applied && bs1[i].claims == bs2[i].claims,
    ensures
        forall|p: Seq<u8>| #[trigger] entry_at(integration_tree(base, working, bs1), p)
            == entry_at(integration_tree(base, working, bs2), p),
{
    lemma_integration_is_layered_union(base, working, bs1);
    lemma_integration_is_layered_union(base, working, bs2);
    assert forall|p: Seq<u8>| claimed(bs1, p) == claimed(bs2, p) by {
        if claimed(bs1, p) {
            let (i, a) = choose|i: int, a: int|
                0 <= i < bs1.len() && bs1[i].applied && 0 <= a < bs1[i].claims.len() && #[trigger] bs1[i].claims[a].path == p;
            assert(bs2[i].claims[a].path == p);
        }
        if claimed(bs2, p) {
            let (i, a) = choose|i: int, a: int|
                0 <= i < bs2.len() && bs2[i].applied && 0 <= a < bs2[i].claims.len() && #[trigger] bs2[i].claims[a].path == p;
            assert(bs1[i].claims[a].path == p);
        }
    }
    assert forall|p: Seq<u8>| #[trigger] entry_at(integration_tree(base, working, bs1), p)
        == entry_at(integration_tree(base, working, bs2), p) by {
        assert(integrated_entry(base, working, bs1, p) == integrated_entry(base, working, bs2, p));
    }
}

/// Whether an applied branch claims a region of the file at `p`.
pub fn is_claimed(bs: &Vec<VirtualBranch>, p: &Vec<u8>) -> (r: bool)
    ensures
        r == claimed(views(bs@), p@),
{
    let ghost v = views(bs@);
    let mut i: usize = 0;
    while i < bs.len()
        invariant
            0 <= i <= bs@.len(),
            v == views(bs@),
            forall|k: int, a: int|
                0 <= k < i && v[k].applied && 0 <= a < v[k].claims.len() ==> #[trigger] v[k].claims[a].path != p@,
        decreases bs@.len() - i,
    {
        if bs[i].applied {
            let mut a: usize = 0;
            while a < bs[i].claims.len()
                invariant
                    0 <= i < bs@.len(),
                    0 <= a <= bs@[i as int].claims@.len(),
                    v == views(bs@),
                    v[i as int].applied,
                    forall|k: int, c: int|
                        0 <= k < i && v[k].applied && 0 <= c < v[k].claims.len() ==> #[trigger] v[k].claims[c].path != p@,
                    forall|c: int| 0 <= c < a ==> v[i as int].claims[c].path != p@,
                decreases bs@[i as int].claims@.len() - a,
            {
                if bytes_eq(&bs[i].claims[a].path, p) {
                    assert(v[i as int].claims[a as int].path == p@);
                    return true;
                }
                a = a + 1;
            }
        }
        i = i + 1;
    }
    false
}


/// Rebuilds the integration tree from the base, the working tree and the
/// branch records.
pub fn update_gitbutler_integration(base: &Snapshot, working: &Snapshot, bs: &Vec<VirtualBranch>) -> (r: Snapshot)
    requires
        unique_paths(working@),
    ensures
        r@ == integration_tree(base@, working@, views(bs@)),
{
    let ghost b = base@;
    let ghost w = working@;
    let ghost v = views(bs@);
    let mut out: Vec<TreeEntry> = Vec::new();
    let mut i: usize = 0;
    while i < base.entries.len()
        invariant
            0 <= i <= base.entries@.len(),
            b == base@,
            w == working@,
            v == views(bs@),
            unique_paths(w),
            out@.map_values(|e: TreeEntry| e@) == layered_base(b.take(i as int), w, v),
        decreases base.entries@.len() - i,
    {
        let e = &base.entries[i];
        assert(b.take(i + 1).drop_last() =~= b.take(i as int));
        assert(b.take(i + 1).last() == e@);
        let ghost prev = out@.map_values(|e: TreeEntry| e@);
        if !is_claimed(bs, &e.path) {
            out.push(copy_entry(e));
            assert(out@.map_values(|e: TreeEntry| e@) =~= prev.push(e@));
        } else {
            match find_path(&working.entries, &e.path) {
                Some(k) => {
                    proof { crate::tree::lemma_entry_at_index(w, k as int); }
                    out.push(copy_entry(&working.entries[k]));
                    assert(out@.map_values(|e: TreeEntry| e@) =~= prev.push(w[k as int]));
                },
                None => {},
            }
        }
        i = i + 1;
    }
    assert(b.take(b.len() as int) =~= b);
    let mut j: usize = 0;
    while j < working.entries.len()
        invariant
            0 <= j <= working.entries@.len(),
            b == base@,
            w == working@,
            v == views(bs@),
            out@.map_values(|e: TreeEntry| e@) == layered_base(b, w, v) + layered_new(w.take(j as int), b, v),
        decreases working.entries@.len() - j,
    {
        let e = &working.entries[j];
        assert(w.take(j + 1).drop_last() =~= w.take(j as int));
        assert(w.take(j + 1).last() == e@);
        let ghost prev = out@.map_values(|e: TreeEntry| e@);
        let claimed_here = is_claimed(bs, &e.path);
        let k = find_path(&base.entries, &e.path);
        if claimed_here && k.is_none() {
            out.push(copy_entry(e));
            assert(out@.map_values(|e: TreeEntry| e@) =~= prev.push(e@));
        } else if k.is_some() {
            let kk = k.unwrap();
            assert(b[kk as int].path == e@.path);
            assert(has_path(b, e@.path));
        }
        assert(out@.map_values(|e: TreeEntry| e@) =~= layered_base(b, w, v) + layered_new(w.take(j + 1), b, v));
        j = j + 1;
    }
    assert(w.take(w.len() as int) =~= w);
    Snapshot { entries: out }
}

/// Whether two entries are the same path, content and mode.
pub fn entry_eq(a: &TreeEntry, b: &TreeEntry) -> (r: bool)
    ensures
        r == (a@ == b@),
{
    a.mode == b.mode && bytes_eq(&a.path, &b.path) && bytes_eq(&a.content, &b.content)
}

/// Checks that the recorded integration tree is the one the branches give
/// now; a difference is drift, reported and not repaired.
pub fn verify_branch(integration: &Snapshot, base: &Snapshot, working: &Snapshot, bs: &Vec<VirtualBranch>) -> (r: Result<(), BranchError>)
    requires
        unique_paths(working@),
    ensures
        r.is_ok() <==> integration@ == integration_tree(base@, working@, views(bs@)),
        r.is_err() ==> r == Err::<(), BranchError>(BranchError::IntegrationDrift),
{
    let expected = update_gitbutler_integration(base, working, bs);
    let ghost x = expected@;
    let ghost g = integration@;
    if expected.entries.len() != integration.entries.len() {
        assert(x.len() != g.len());
        return Err(BranchError::IntegrationDrift);
    }
    let mut i: usize = 0;
    while i < expected.entries.len()
        invariant
            0 <= i <= expected.entries@.len(),
            expected.entries@.len() == integration.entries@.len(),
            x == expected@,
            x == integration_tree(base@, working@, views(bs@)),
            g == integration@,
            forall|k: int| 0 <= k < i ==> x[k] == g[k],
        decreases expected.entries@.len() - i,
    {
        if !entry_eq(&expected.entries[i], &integration.entries[i]) {
            assert(x[i as int] != g[i as int]);
            assert(x != g);
            return Err(BranchError::IntegrationDrift);
        }
        i = i + 1;
    }
    assert(x =~= g);
    Ok(())
}

} // verus!
