use vstd::prelude::*;

use crate::bytes::{bytes_eq, copy_bytes};

verus! {

/// One path of a tree or of a working-directory snapshot: its content and mode.
pub struct TreeEntry {
    pub path: Vec<u8>,
    pub content: Vec<u8>,
    pub mode: u32,
}

/// What a `TreeEntry` stands for.
pub struct EntryView {
    pub path: Seq<u8>,
    pub content: Seq<u8>,
    pub mode: u32,
}

impl View for TreeEntry {
    type V = EntryView;

    open spec fn view(&self) -> EntryView {
        EntryView { path: self.path@, content: self.content@, mode: self.mode }
    }
}

/// One path recorded in the staging area, with the content recorded for it.
pub struct StagedEntry {
    pub path: Vec<u8>,
    pub content: Vec<u8>,
}

/// A mapping from path to entry; a tree, or what is on disk.
pub struct Snapshot {
    pub entries: Vec<TreeEntry>,
}

impl View for Snapshot {
    type V = Seq<EntryView>;

    open spec fn view(&self) -> Seq<EntryView> {
        self.entries@.map_values(|e: TreeEntry| e@)
    }
}

/// The staging area: a mapping from path to recorded content.
pub struct Staging {
    pub entries: Vec<StagedEntry>,
}

/// What each path of the staging area records.
pub open spec fn staged_view(s: Seq<StagedEntry>) -> Seq<(Seq<u8>, Seq<u8>)> {
    s.map_values(|e: StagedEntry| (e.path@, e.content@))
}

pub open spec fn has_path(s: Seq<EntryView>, p: Seq<u8>) -> bool {
    exists|i: int| 0 <= i < s.len() && s[i].path == p
}

/// No path occurs twice.
pub open spec fn unique_paths(s: Seq<EntryView>) -> bool {
    forall|i: int, j: int| 0 <= i < s.len() && 0 <= j < s.len() && i != j ==> s[i].path != s[j].path
}

/// The entry a snapshot holds for a path, if any.
pub open spec fn entry_at(s: Seq<EntryView>, p: Seq<u8>) -> Option<EntryView> {
    if has_path(s, p) {
        Some(s[choose|i: int| 0 <= i < s.len() && s[i].path == p])
    } else {
        None
    }
}

/// The base entries that are still on disk, in base order, each with its
/// content on disk.
pub open spec fn carried(base: Seq<EntryView>, disk: Seq<EntryView>) -> Seq<EntryView>
    decreases base.len(),
{
    if base.len() == 0 {
        Seq::empty()
    } else {
        let prev = carried(base.drop_last(), disk);
        let p = base.last().path;
        if has_path(disk, p) {
            prev.push(entry_at(disk, p).unwrap())
        } else {
            prev
        }
    }
}

/// The entries on disk whose paths are not in the base, in disk order.
pub open spec fn added(disk: Seq<EntryView>, base: Seq<EntryView>) -> Seq<EntryView>
    decreases disk.len(),
{
    if disk.len() == 0 {
        Seq::empty()
    } else {
        let prev = added(disk.drop_last(), base);
        if has_path(base, disk.last().path) {
            prev
        } else {
            prev.push(disk.last())
        }
    }
}

/// The working tree: base paths first, in base order, then new paths in disk
/// order, every one with what is on disk.
pub open spec fn reconciled(base: Seq<EntryView>, disk: Seq<EntryView>) -> Seq<EntryView> {
    carried(base, disk) + added(disk, base)
}

/// What to do with one path of the base tree.
pub enum TreeAction {
    /// Carry the base entry through unchanged.
    Keep,
    /// Write what is on disk.
    Upsert,
    /// Leave the path out.
    Remove,
}

/// The staging area and the disk both agree with the base entry.
pub open spec fn untouched(base: EntryView, staged: Option<Seq<u8>>, disk: Option<EntryView>) -> bool {
    staged == Some(base.content) && disk == Some(base)
}

/// Decides the action for a path of the base tree from its staged content and
/// its entry on disk. The disk alone decides presence and content; the
/// staging area only lets an untouched entry be kept as it is.
pub fn classify(base: &TreeEntry, staged: Option<&StagedEntry>, disk: Option<&TreeEntry>) -> (r: TreeAction)
    requires
        staged.is_some() ==> staged.unwrap().path@ == base.path@,
        disk.is_some() ==> disk.unwrap().path@ == base.path@,
    ensures
        r == TreeAction::Keep <==> untouched(
            base@,
            match staged { Some(s) => Some(s.content@), None => None },
            match disk { Some(d) => Some(d@), None => None },
        ),
        r == TreeAction::Remove <==> disk.is_none(),
{
    match disk {
        None => TreeAction::Remove,
        Some(d) => {
            let same_disk = d.mode == base.mode && bytes_eq(&d.content, &base.content);
            let same_staged = match staged {
                Some(s) => bytes_eq(&s.content, &base.content),
                None => false,
            };
            if same_disk && same_staged {
                TreeAction::Keep
            } else {
                proof {
                    if d@ == base@ {
                        assert(d@.content == base@.content);
                    }
                }
                TreeAction::Upsert
            }
        },
    }
}

pub fn copy_entry(e: &TreeEntry) -> (r: TreeEntry)
    ensures
        r@ == e@,
{
    TreeEntry { path: copy_bytes(&e.path), content: copy_bytes(&e.content), mode: e.mode }
}

/// Finds the index of a path in a snapshot.
pub fn find_path(entries: &Vec<TreeEntry>, p: &Vec<u8>) -> (r: Option<usize>)
    ensures
        match r {
            Some(k) => k < entries@.len() && entries@[k as int]@.path == p@,
            None => !has_path(entries@.map_values(|e: TreeEntry| e@), p@),
        },
{
    let ghost s = entries@.map_values(|e: TreeEntry| e@);
    let mut i: usize = 0;
    while i < entries.len()
        invariant
            0 <= i <= entries@.len(),
            s == entries@.map_values(|e: TreeEntry| e@),
            forall|k: int| 0 <= k < i ==> s[k].path != p@,
        decreases entries@.len() - i,
    {
        if bytes_eq(&entries[i].path, p) {
            return Some(i);
        }
        i = i + 1;
    }
    None
}

/// Finds the staged entry of a path.
pub fn find_staged(entries: &Vec<StagedEntry>, p: &Vec<u8>) -> (r: Option<usize>)
    ensures
        match r {
            Some(k) => k < entries@.len() && entries@[k as int].path@ == p@,
            None => forall|k: int| 0 <= k < entries@.len() ==> entries@[k].path@ != p@,
        },
{
    let mut i: usize = 0;
    while i < entries.len()
        invariant
            0 <= i <= entries@.len(),
            forall|k: int| 0 <= k < i ==> entries@[k].path@ != p@,
        decreases entries@.len() - i,
    {
        if bytes_eq(&entries[i].path, p) {
            return Some(i);
        }
        i = i + 1;
    }
    None
}


pub proof fn lemma_entry_at_index(s: Seq<EntryView>, k: int)
    requires
        unique_paths(s),
        0 <= k < s.len(),
    ensures
        has_path(s, s[k].path),
        entry_at(s, s[k].path) == Some(s[k]),
{
    let p = s[k].path;
    assert(has_path(s, p));
    let c = choose|i: int| 0 <= i < s.len() && s[i].path == p;
    assert(c == k);
}

/// Computes the working tree from the base tree, the staging area and the
/// working directory. The staging area is read but never decides what the
/// result holds; nothing is written to either snapshot.
pub fn reconcile(base: &Snapshot, staging: &Staging, disk: &Snapshot) -> (r: Snapshot)
    requires
        unique_paths(base@),
        unique_paths(disk@),
    ensures
        r@ == reconciled(base@, disk@),
{
    let ghost b = base@;
    let ghost d = disk@;
    let mut out: Vec<TreeEntry> = Vec::new();
    let mut i: usize = 0;
    while i < base.entries.len()
        invariant
            0 <= i <= base.entries@.len(),
            b == base@,
            d == disk@,
            unique_paths(d),
            out@.map_values(|e: TreeEntry| e@) == carried(b.take(i as int), d),
        decreases base.entries@.len() - i,
    {
        let e = &base.entries[i];
        let k = find_path(&disk.entries, &e.path);
        let si = find_staged(&staging.entries, &e.path);
        let staged = match si {
            Some(j) => Some(&staging.entries[j]),
            None => None,
        };
        let on_disk = match k {
            Some(j) => Some(&disk.entries[j]),
            None => None,
        };
        let action = classify(e, staged, on_disk);
        assert(b.take(i + 1).drop_last() =~= b.take(i as int));
        assert(b.take(i + 1).last() == e@);
        match action {
            TreeAction::Keep => {
                let kk = k.unwrap();
                proof { lemma_entry_at_index(d, kk as int); }
                out.push(copy_entry(e));
            },
            TreeAction::Upsert => {
                let kk = k.unwrap();
                proof { lemma_entry_at_index(d, kk as int); }
                out.push(copy_entry(&disk.entries[kk]));
            },
            TreeAction::Remove => {},
        }
        assert(out@.map_values(|e: TreeEntry| e@) =~= carried(b.take(i + 1), d));
        i = i + 1;
    }
    assert(b.take(b.len() as int) =~= b);
    let mut j: usize = 0;
    while j < disk.entries.len()
        invariant
            0 <= j <= disk.entries@.len(),
            b == base@,
            d == disk@,
            out@.map_values(|e: TreeEntry| e@) == carried(b, d) + added(d.take(j as int), b),
        decreases disk.entries@.len() - j,
    {
        let e = &disk.entries[j];
        assert(d.take(j + 1).drop_last() =~= d.take(j as int));
        assert(d.take(j + 1).last() == e@);
        let k = find_path(&base.entries, &e.path);
        let ghost prev = out@.map_values(|e: TreeEntry| e@);
        if k.is_none() {
            assert(!has_path(b, e@.path));
            assert(added(d.take(j + 1), b) == added(d.take(j as int), b).push(e@));
            out.push(copy_entry(e));
            assert(out@.map_values(|e: TreeEntry| e@) =~= prev.push(e@));
        } else {
            let kk = k.unwrap();
            assert(b[kk as int].path == e@.path);
            assert(has_path(b, e@.path));
            assert(added(d.take(j + 1), b) == added(d.take(j as int), b));
        }
        assert(out@.map_values(|e: TreeEntry| e@) =~= carried(b, d) + added(d.take(j + 1), b));
        j = j + 1;
    }
    assert(d.take(d.len() as int) =~= d);
    Snapshot { entries: out }
}


proof fn lemma_carried(b: Seq<EntryView>, d: Seq<EntryView>)
    requires
        unique_paths(b),
        unique_paths(d),
    ensures
        unique_paths(carried(b, d)),
        forall|i: int| 0 <= i < carried(b, d).len() ==> has_path(b, #[trigger] carried(b, d)[i].path)
            && d.contains(carried(b, d)[i]),
        forall|p: Seq<u8>| has_path(b, p) && has_path(d, p) ==> has_path(carried(b, d), p),
    decreases b.len(),
{
    if b.len() > 0 {
        let b2 = b.drop_last();
        lemma_carried(b2, d);
        let c2 = carried(b2, d);
        let c = carried(b, d);
        let p = b.last().path;
        assert forall|q: Seq<u8>| has_path(b2, q) implies q != p by {
            let w = choose|i: int| 0 <= i < b2.len() && b2[i].path == q;
            assert(b[w].path == q);
        }
        assert forall|q: Seq<u8>| has_path(b, q) implies has_path(b2, q) || q == p by {
            let w = choose|i: int| 0 <= i < b.len() && b[i].path == q;
            if w < b.len() - 1 {
                assert(b2[w].path == q);
            }
        }
        assert forall|i: int| 0 <= i < c2.len() implies has_path(b, #[trigger] c2[i].path) by {
            let w = choose|k: int| 0 <= k < b2.len() && b2[k].path == c2[i].path;
            assert(b[w].path == c2[i].path);
        }
        if has_path(d, p) {
            let k = choose|i: int| 0 <= i < d.len() && d[i].path == p;
            lemma_entry_at_index(d, k);
            assert(c == c2.push(d[k]));
            assert(has_path(c, p)) by {
                assert(c[c.len() - 1].path == p);
            }
            assert forall|q: Seq<u8>| has_path(c2, q) implies has_path(c, q) by {
                let w = choose|i: int| 0 <= i < c2.len() && c2[i].path == q;
                assert(c[w].path == q);
            }
            assert forall|i: int| 0 <= i < c.len() implies has_path(b, #[trigger] c[i].path)
                && d.contains(c[i]) by {
                if i < c.len() - 1 {
                    assert(c[i] == c2[i]);
                } else {
                    assert(d[k] == c[i]);
                    assert(b[b.len() - 1].path == c[i].path);
                }
            }
            assert forall|i: int, j: int| 0 <= i < c.len() && 0 <= j < c.len() && i != j
                implies c[i].path != c[j].path by {
                if i < c.len() - 1 && j == c.len() - 1 {
                    assert(has_path(b2, c2[i].path)) by {
                        let w = choose|k: int| 0 <= k < b2.len() && b2[k].path == c2[i].path;
                        assert(b2[w].path == c2[i].path);
                    }
                } else if j < c.len() - 1 && i == c.len() - 1 {
                    assert(has_path(b2, c2[j].path)) by {
                        let w = choose|k: int| 0 <= k < b2.len() && b2[k].path == c2[j].path;
                        assert(b2[w].path == c2[j].path);
                    }
                }
            }
        }
    }
}

proof fn lemma_added(d: Seq<EntryView>, b: Seq<EntryView>)
    requires
        unique_paths(d),
    ensures
        unique_paths(added(d, b)),
        forall|i: int| 0 <= i < added(d, b).len() ==> !has_path(b, #[trigger] added(d, b)[i].path)
            && d.contains(added(d, b)[i]),
        forall|p: Seq<u8>| !has_path(b, p) && has_path(d, p) ==> has_path(added(d, b), p),
    decreases d.len(),
{
    if d.len() > 0 {
        let d2 = d.drop_last();
        assert(unique_paths(d2)) by {
            assert forall|i: int, j: int| 0 <= i < d2.len() && 0 <= j < d2.len() && i != j
                implies d2[i].path != d2[j].path by {
                assert(d[i] == d2[i] && d[j] == d2[j]);
            }
        }
        lemma_added(d2, b);
        let a2 = added(d2, b);
        let a = added(d, b);
        let x = d.last();
        assert forall|i: int| 0 <= i < a2.len() implies #[trigger] a2[i].path != x.path
            && d.contains(a2[i]) by {
            let m = choose|m: int| 0 <= m < d2.len() && d2[m] == a2[i];
            assert(d[m] == a2[i]);
            assert(d[d.len() - 1] == x);
        }
        assert forall|p: Seq<u8>| has_path(d, p) implies has_path(d2, p) || p == x.path by {
            let w = choose|i: int| 0 <= i < d.len() && d[i].path == p;
            if w < d.len() - 1 {
                assert(d2[w].path == p);
            }
        }
        if !has_path(b, x.path) {
            assert(a == a2.push(x));
            assert(has_path(a, x.path)) by {
                assert(a[a.len() - 1].path == x.path);
            }
            assert forall|q: Seq<u8>| has_path(a2, q) implies has_path(a, q) by {
                let w = choose|i: int| 0 <= i < a2.len() && a2[i].path == q;
                assert(a[w].path == q);
            }
            assert forall|i: int| 0 <= i < a.len() implies !has_path(b, #[trigger] a[i].path)
                && d.contains(a[i]) by {
                if i < a.len() - 1 {
                    assert(a[i] == a2[i]);
                } else {
                    assert(d[d.len() - 1] == a[i]);
                }
            }
            assert forall|i: int, j: int| 0 <= i < a.len() && 0 <= j < a.len() && i != j
                implies a[i].path != a[j].path by {
                if i < a.len() - 1 && j == a.len() - 1 {
                    assert(a2[i].path != x.path);
                } else if j < a.len() - 1 && i == a.len() - 1 {
                    assert(a2[j].path != x.path);
                }
            }
        } else {
            assert forall|i: int| 0 <= i < a.len() implies !has_path(b, #[trigger] a[i].path)
                && d.contains(a[i]) by {
                let m = choose|m: int| 0 <= m < d2.len() && d2[m] == a2[i];
                assert(d[m] == a2[i]);
            }
        }
    }
}

/// The working tree holds, for every path, exactly what the disk holds, with
/// no path twice: neither presence nor content depends on the staging area.
pub proof fn lemma_reconciled_matches_disk(base: Seq<EntryView>, disk: Seq<EntryView>)
    requires
        unique_paths(base),
        unique_paths(disk),
    ensures
        unique_paths(reconciled(base, disk)),
        forall|p: Seq<u8>| #[trigger] entry_at(reconciled(base, disk), p) == entry_at(disk, p),
{
    lemma_carried(base, disk);
    lemma_added(disk, base);
    let c = carried(base, disk);
    let a = added(disk, base);
    let r = reconciled(base, disk);
    assert forall|i: int| 0 <= i < r.len() implies disk.contains(#[trigger] r[i]) by {
        if i < c.len() {
            assert(r[i] == c[i]);
        } else {
            assert(r[i] == a[i - c.len()]);
        }
    }
    assert forall|i: int, j: int| 0 <= i < r.len() && 0 <= j < r.len() && i != j
        implies r[i].path != r[j].path by {
        if i < c.len() && j >= c.len() {
            assert(r[i] == c[i] && r[j] == a[j - c.len()]);
            assert(has_path(base, c[i].path));
            assert(!has_path(base, a[j - c.len()].path));
        } else if j < c.len() && i >= c.len() {
            assert(r[j] == c[j] && r[i] == a[i - c.len()]);
            assert(has_path(base, c[j].path));
            assert(!has_path(base, a[i - c.len()].path));
        } else if i < c.len() {
            assert(r[i] == c[i] && r[j] == c[j]);
        } else {
            assert(r[i] == a[i - c.len()] && r[j] == a[j - c.len()]);
        }
    }
    assert forall|p: Seq<u8>| #[trigger] entry_at(r, p) == entry_at(disk, p) by {
        if has_path(disk, p) {
            if has_path(base, p) {
                let w = choose|i: int| 0 <= i < c.len() && c[i].path == p;
                assert(r[w] == c[w]);
            } else {
                let w = choose|i: int| 0 <= i < a.len() && a[i].path == p;
                assert(r[c.len() + w] == a[w]);
            }
            assert(has_path(r, p));
            let k = choose|i: int| 0 <= i < r.len() && r[i].path == p;
            assert(disk.contains(r[k]));
            let m = choose|m: int| 0 <= m < disk.len() && disk[m] == r[k];
            lemma_entry_at_index(disk, m);
        } else {
            if has_path(r, p) {
                let k = choose|i: int| 0 <= i < r.len() && r[i].path == p;
                assert(disk.contains(r[k]));
                let m = choose|m: int| 0 <= m < disk.len() && disk[m] == r[k];
                assert(disk[m].path == p);
            }
        }
    }
}

proof fn lemma_carried_of_disk_entries(s: Seq<EntryView>, d: Seq<EntryView>)
    requires
        unique_paths(d),
        forall|i: int| 0 <= i < s.len() ==> d.contains(#[trigger] s[i]),
    ensures
        carried(s, d) == s,
    decreases s.len(),
{
    if s.len() > 0 {
        let s2 = s.drop_last();
        assert forall|i: int| 0 <= i < s2.len() implies d.contains(#[trigger] s2[i]) by {
            assert(s[i] == s2[i]);
        }
        lemma_carried_of_disk_entries(s2, d);
        assert(d.contains(s[s.len() - 1]));
        let m = choose|m: int| 0 <= m < d.len() && d[m] == s.last();
        lemma_entry_at_index(d, m);
        assert(s2.push(s.last()) =~= s);
    }
}

proof fn lemma_added_none(d: Seq<EntryView>, r: Seq<EntryView>)
    requires
        forall|i: int| 0 <= i < d.len() ==> has_path(r, #[trigger] d[i].path),
    ensures
        added(d, r) == Seq::<EntryView>::empty(),
    decreases d.len(),
{
    if d.len() > 0 {
        let d2 = d.drop_last();
        assert forall|i: int| 0 <= i < d2.len() implies has_path(r, #[trigger] d2[i].path) by {
            assert(d[i] == d2[i]);
        }
        lemma_added_none(d2, r);
        assert(has_path(r, d[d.len() - 1].path));
    }
}

/// Reconciling is idempotent: taking the working tree as the new base and
/// reconciling against the same disk gives the same tree again.
pub proof fn lemma_reconcile_idempotent(base: Seq<EntryView>, disk: Seq<EntryView>)
    requires
        unique_paths(base),
        unique_paths(disk),
    ensures
        reconciled(reconciled(base, disk), disk) == reconciled(base, disk),
{
    let r = reconciled(base, disk);
    lemma_carried(base, disk);
    lemma_added(disk, base);
    lemma_reconciled_matches_disk(base, disk);
    let c = carried(base, disk);
    let a = added(disk, base);
    assert forall|i: int| 0 <= i < r.len() implies disk.contains(#[trigger] r[i]) by {
        if i < c.len() {
            assert(r[i] == c[i]);
        } else {
            assert(r[i] == a[i - c.len()]);
        }
    }
    lemma_carried_of_disk_entries(r, disk);
    assert forall|i: int| 0 <= i < disk.len() implies has_path(r, #[trigger] disk[i].path) by {
        lemma_entry_at_index(disk, i);
        assert(entry_at(r, disk[i].path) == entry_at(disk, disk[i].path));
    }
    lemma_added_none(disk, r);
    assert(r + Seq::<EntryView>::empty() =~= r);
}

} // verus!
