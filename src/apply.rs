//! Decisions of the applier for one entry, from what the caller observed on
//! disk; the caller performs them.

use vstd::prelude::*;

use crate::builder::{entry_for, FilePair};
use crate::delta::{build_payload_of, fingerprint_of, rebuilt_by, rebuilt_of};
use crate::package::{
    forward_slashes, Delta, DeltaAlgorithm, DeltaCompression, DeltaModel, OperationModel, PatchEntry, PatchError, PatchOperation,
};

verus! {

/// What stands at an entry's destination.
#[derive(Clone, Copy, Debug, PartialEq, Eq, Structural)]
pub enum Observed {
    Missing,
    Symlink,
    File,
}

/// What to do to an entry's destination.
#[derive(Clone, Debug)]
pub enum FileAction {
    /// Create parent directories as needed and write these bytes.
    Write(Vec<u8>),
    /// Delete the file, then clean up the directories it leaves empty.
    Delete,
    /// Read the file, rebuild it with `modify_contents`, and write the result.
    Rebuild(Delta),
    /// Leave everything as it is.
    Nothing,
}

/// The decision for an entry, as a value.
pub enum Planned {
    Write(Seq<u8>),
    Delete,
    Rebuild(DeltaModel),
    Nothing,
    /// Refused: a symbolic link stands at the destination.
    Refused,
    /// Failed: the file to modify is not there.
    Absent,
}

pub open spec fn planned(op: OperationModel, observed: Observed) -> Planned {
    if observed == Observed::Symlink {
        Planned::Refused
    } else {
        match op {
            OperationModel::Add(data) => Planned::Write(data),
            OperationModel::Remove => if observed == Observed::File {
                Planned::Delete
            } else {
                Planned::Nothing
            },
            OperationModel::Modify(d) => if observed == Observed::File {
                Planned::Rebuild(d)
            } else {
                Planned::Absent
            },
        }
    }
}

pub open spec fn planned_of(r: Result<FileAction, PatchError>) -> Planned {
    match r {
        Ok(FileAction::Write(w)) => Planned::Write(w@),
        Ok(FileAction::Delete) => Planned::Delete,
        Ok(FileAction::Rebuild(d)) => Planned::Rebuild(d@),
        Ok(FileAction::Nothing) => Planned::Nothing,
        Err(PatchError::SymlinkRefused(_)) => Planned::Refused,
        Err(_) => Planned::Absent,
    }
}

/// The action for one entry whose destination was observed as `observed`;
/// `path` names the destination in errors.
///
/// A symbolic link at the destination is never written, deleted or read
/// through. Removing a file that is already gone does nothing, so a package
/// can be applied again.
pub fn plan_entry(op: PatchOperation, observed: Observed, path: String) -> (r: Result<
    FileAction,
    PatchError,
>)
    ensures
        planned_of(r) == planned(op@, observed),
        observed == Observed::Symlink ==> (r matches Err(PatchError::SymlinkRefused(p)) && p@
            == path@),
        observed != Observed::Symlink ==> match op {
            PatchOperation::Add(data) => r matches Ok(FileAction::Write(w)) && w@ == data@,
            PatchOperation::Remove => if observed == Observed::File {
                r matches Ok(FileAction::Delete)
            } else {
                r matches Ok(FileAction::Nothing)
            },
            PatchOperation::Modify(d) => if observed == Observed::File {
                r matches Ok(FileAction::Rebuild(e)) && e@ == d@
            } else {
                r matches Err(PatchError::Io(p)) && p@ == path@
            },
        },
{
    if observed == Observed::Symlink {
        return Err(PatchError::SymlinkRefused(path));
    }
    match op {
        PatchOperation::Add(data) => Ok(FileAction::Write(data)),
        PatchOperation::Remove => {
            if observed == Observed::File {
                Ok(FileAction::Delete)
            } else {
                Ok(FileAction::Nothing)
            }
        },
        PatchOperation::Modify(d) => {
            if observed == Observed::File {
                Ok(FileAction::Rebuild(d))
            } else {
                Err(PatchError::Io(path))
            }
        },
    }
}

/// Refuses a path if any of its components, listed from the outermost down
/// with whether each exists as a symbolic link, is one. The first such
/// component is named.
pub fn refuse_symlinks(components: Vec<String>, is_symlink: &Vec<bool>) -> (r: Result<
    (),
    PatchError,
>)
    requires
        components@.len() == is_symlink@.len(),
    ensures
        r is Ok <==> forall|i: int| 0 <= i < is_symlink@.len() ==> !#[trigger] is_symlink@[i],
        r matches Err(e) ==> exists|i: int|
            0 <= i < is_symlink@.len() && #[trigger] is_symlink@[i] && (forall|j: int|
                0 <= j < i ==> !is_symlink@[j]) && (e matches PatchError::SymlinkRefused(p) && p@
                == components@[i]@),
{
    let ghost names = components@;
    let n = is_symlink.len();
    let mut i: usize = 0;
    for c in it: components.into_iter()
        invariant
            n == is_symlink@.len(),
            it.seq() == names,
            names.len() == is_symlink@.len(),
            i == it.index(),
            forall|j: int| 0 <= j < i ==> !is_symlink@[j],
    {
        assert(i < n);
        if is_symlink[i] {
            return Err(PatchError::SymlinkRefused(c));
        }
        i = i + 1;
    }
    Ok(())
}

/// What the tree holds at a pair's path before the patch.
pub open spec fn observed_before(f: FilePair) -> Observed {
    if f.before is Some {
        Observed::File
    } else {
        Observed::Missing
    }
}

/// What the builder's delta from `before` to `after` rebuilds from `before`.
pub open spec fn modified_content(before: Seq<u8>, after: Seq<u8>) -> Option<Seq<u8>> {
    rebuilt_of(
        before,
        DeltaAlgorithm::Rsync020,
        DeltaCompression::Zstd,
        build_payload_of(before, after)->Some_0,
    )
}

/// The entry built for a path, applied where the tree holds that path's old
/// content, leaves the path as the new snapshot has it: the new bytes are
/// written, the file is deleted, or the file is rebuilt from a delta whose
/// before fingerprint is that of the old content and whose after
/// fingerprint, which `modify_contents` checks on what it rebuilds, is that
/// of the new content; what it rebuilds is what the builder's delta gives.
pub proof fn lemma_built_entry_reaches_after(e: PatchEntry, f: FilePair)
    requires
        entry_for(e, f),
    ensures
        match (f.before, f.after) {
            (None, Some(b)) => planned(e.operation@, observed_before(f)) == Planned::Write(b@),
            (Some(_), None) => planned(e.operation@, observed_before(f)) == Planned::Delete,
            (Some(a), Some(b)) => planned(e.operation@, observed_before(f)) matches Planned::Rebuild(
                d,
            ) && d.before_hash == fingerprint_of(a@) && d.after_hash == fingerprint_of(b@)
                && rebuilt_by(a@, d) == modified_content(a@, b@),
            (None, None) => false,
        },
{
}

/// A directory tree as a map from relative path to file content.
pub type Tree = Map<Seq<char>, Seq<u8>>;

/// Where a pair's file sits in a tree.
pub open spec fn key_of(f: FilePair) -> Seq<char> {
    forward_slashes(f.rel_path@)
}

/// The tree holds the pair's old (or new) file, or nothing where there is
/// none.
pub open spec fn holds_side(t: Tree, f: FilePair, new_side: bool) -> bool {
    let c = if new_side {
        f.after
    } else {
        f.before
    };
    match c {
        Some(b) => t.contains_key(key_of(f)) && t[key_of(f)] == b@,
        None => !t.contains_key(key_of(f)),
    }
}

pub open spec fn same_at(t: Tree, u: Tree, k: Seq<char>) -> bool {
    t.contains_key(k) == u.contains_key(k) && (t.contains_key(k) ==> t[k] == u[k])
}

/// Applying one entry to `t` gives `t2`: the planned action is performed as
/// `modify_contents` says for a rebuild that succeeds. A file that already has
/// the after fingerprint is left as it is; any other must have the before
/// fingerprint, and is replaced by what the delta rebuilds, which must have
/// the after fingerprint.
pub open spec fn applies(t: Tree, e: PatchEntry, t2: Tree) -> bool {
    let k = e.rel_path@;
    let obs = if t.contains_key(k) {
        Observed::File
    } else {
        Observed::Missing
    };
    match planned(e.operation@, obs) {
        Planned::Write(w) => t2 == t.insert(k, w),
        Planned::Delete => t2 == t.remove(k),
        Planned::Nothing => t2 == t,
        Planned::Rebuild(d) => if fingerprint_of(t[k]) == d.after_hash {
            t2 == t
        } else {
            &&& fingerprint_of(t[k]) == d.before_hash
            &&& rebuilt_by(t[k], d) is Some
            &&& fingerprint_of(rebuilt_by(t[k], d)->Some_0) == d.after_hash
            &&& t2 == t.insert(k, rebuilt_by(t[k], d)->Some_0)
        },
        _ => false,
    }
}

/// The pairs have distinct paths, and the trees `a` and `b` hold their old
/// and new files and agree everywhere else.
pub open spec fn snapshots_of(cs: Seq<FilePair>, a: Tree, b: Tree) -> bool {
    &&& forall|i: int, j: int|
        0 <= i < cs.len() && 0 <= j < cs.len() && i != j ==> key_of(#[trigger] cs[i]) != key_of(
            #[trigger] cs[j],
        )
    &&& forall|i: int|
        0 <= i < cs.len() ==> holds_side(a, #[trigger] cs[i], false) && holds_side(b, cs[i], true)
    &&& forall|k: Seq<char>|
        (forall|i: int| 0 <= i < cs.len() ==> key_of(#[trigger] cs[i]) != k) ==> same_at(a, b, k)
}

/// The state after the first `n` entries: the paths already done look as in
/// `b` (a rebuilt file up to its fingerprint), the rest still as in `a`.
pub open spec fn done_up_to(cs: Seq<FilePair>, a: Tree, b: Tree, t: Tree, n: int) -> bool {
    &&& forall|i: int|
        0 <= i < n ==> {
            let k = key_of(#[trigger] cs[i]);
            &&& t.contains_key(k) == b.contains_key(k)
            &&& t.contains_key(k) ==> (t[k] == b[k] || (cs[i].before is Some && cs[i].after is Some
                && fingerprint_of(t[k]) == fingerprint_of(b[k]) && (t[k] == a[k] || Some(t[k])
                == modified_content(a[k], b[k]))))
        }
    &&& forall|i: int| n <= i < cs.len() ==> same_at(t, a, key_of(#[trigger] cs[i]))
    &&& forall|k: Seq<char>|
        (forall|i: int| 0 <= i < cs.len() ==> key_of(#[trigger] cs[i]) != k) ==> same_at(t, a, k)
}

proof fn lemma_round_trip_step(
    cs: Seq<FilePair>,
    a: Tree,
    b: Tree,
    t: Tree,
    e: PatchEntry,
    t2: Tree,
    i: int,
)
    requires
        0 <= i < cs.len(),
        entry_for(e, cs[i]),
        snapshots_of(cs, a, b),
        done_up_to(cs, a, b, t, i),
        applies(t, e, t2),
    ensures
        done_up_to(cs, a, b, t2, i + 1),
{
    let f = cs[i];
    let k = key_of(f);
    assert(same_at(t, a, k));
    assert(holds_side(a, f, false) && holds_side(b, f, true));
    lemma_built_entry_reaches_after(e, f);
    let obs = if t.contains_key(k) {
        Observed::File
    } else {
        Observed::Missing
    };
    assert(obs == observed_before(f));
    assert(t2.contains_key(k) == b.contains_key(k) && (t2.contains_key(k) ==> (t2[k] == b[k] || (
    f.before is Some && f.after is Some && fingerprint_of(t2[k]) == fingerprint_of(b[k]) && (t2[k]
        == a[k] || Some(t2[k]) == modified_content(a[k], b[k])))))) by {
        match (f.before, f.after) {
            (Some(x), Some(y)) => {
                assert(t2.contains_key(k));
            },
            (Some(x), None) => {},
            (None, Some(y)) => {},
            (None, None) => {},
        }
    }
    assert(forall|k2: Seq<char>| k2 != k ==> same_at(t2, t, k2));
    assert forall|j: int| 0 <= j < i + 1 implies {
        let kj = key_of(#[trigger] cs[j]);
        &&& t2.contains_key(kj) == b.contains_key(kj)
        &&& t2.contains_key(kj) ==> (t2[kj] == b[kj] || (cs[j].before is Some && cs[j].after
            is Some && fingerprint_of(t2[kj]) == fingerprint_of(b[kj]) && (t2[kj] == a[kj] || Some(
            t2[kj],
        ) == modified_content(a[kj], b[kj]))))
    } by {
        if j != i {
            assert(key_of(cs[j]) != key_of(cs[i]));
            assert(same_at(t2, t, key_of(cs[j])));
        }
    }
    assert forall|j: int| i + 1 <= j < cs.len() implies same_at(t2, a, key_of(#[trigger] cs[j])) by {
        assert(key_of(cs[j]) != key_of(cs[i]));
        assert(same_at(t2, t, key_of(cs[j])));
    }
    assert forall|k2: Seq<char>|
        (forall|j: int| 0 <= j < cs.len() ==> key_of(#[trigger] cs[j]) != k2) implies same_at(
        t2,
        a,
        k2,
    ) by {
        assert(key_of(cs[i]) != k2);
        assert(same_at(t2, t, k2));
        assert(same_at(t, a, k2));
    }
}

proof fn lemma_round_trip_prefix(
    cs: Seq<FilePair>,
    es: Seq<PatchEntry>,
    a: Tree,
    b: Tree,
    ts: Seq<Tree>,
    n: int,
)
    requires
        es.len() == cs.len(),
        forall|i: int| 0 <= i < cs.len() ==> entry_for(#[trigger] es[i], cs[i]),
        snapshots_of(cs, a, b),
        ts.len() == es.len() + 1,
        ts[0] == a,
        forall|i: int| 0 <= i < es.len() ==> applies(#[trigger] ts[i], es[i], ts[i + 1]),
        0 <= n <= es.len(),
    ensures
        done_up_to(cs, a, b, ts[n], n),
    decreases n,
{
    if n == 0 {
        return;
    }
    lemma_round_trip_prefix(cs, es, a, b, ts, n - 1);
    assert(entry_for(es[n - 1], cs[n - 1]));
    assert(applies(ts[n - 1], es[n - 1], ts[n]));
    lemma_round_trip_step(cs, a, b, ts[n - 1], es[n - 1], ts[n], n - 1);
}

/// Round trip on trees: applying, in order, the entries built for the changed
/// paths `cs` (each entry as `entry_for` says) to the old tree `a` gives a
/// tree with exactly the files of the new tree `b`, each with the content it
/// has in `b`, except that a modified file holds what the builder's delta
/// rebuilds from its old content (or, where that already had the new
/// fingerprint, its old content), with the fingerprint of its new content.
pub proof fn lemma_tree_round_trip(
    cs: Seq<FilePair>,
    es: Seq<PatchEntry>,
    a: Tree,
    b: Tree,
    ts: Seq<Tree>,
)
    requires
        es.len() == cs.len(),
        forall|i: int| 0 <= i < cs.len() ==> entry_for(#[trigger] es[i], cs[i]),
        snapshots_of(cs, a, b),
        ts.len() == es.len() + 1,
        ts[0] == a,
        forall|i: int| 0 <= i < es.len() ==> applies(#[trigger] ts[i], es[i], ts[i + 1]),
    ensures
        ts.last().dom() == b.dom(),
        forall|k: Seq<char>|
            #[trigger] b.contains_key(k) ==> ts.last()[k] == b[k] || (fingerprint_of(ts.last()[k])
                == fingerprint_of(b[k]) && (ts.last()[k] == a[k] || Some(ts.last()[k])
                == modified_content(a[k], b[k])) && exists|i: int|
                0 <= i < cs.len() && key_of(#[trigger] cs[i]) == k && cs[i].before is Some
                    && cs[i].after is Some),
{
    let n = es.len() as int;
    lemma_round_trip_prefix(cs, es, a, b, ts, n);
    let t = ts[n];
    assert(ts.last() == t);
    assert forall|k: Seq<char>| #[trigger] t.contains_key(k) == b.contains_key(k) by {
        if exists|i: int| 0 <= i < cs.len() && key_of(#[trigger] cs[i]) == k {
            let i = choose|i: int| 0 <= i < cs.len() && key_of(#[trigger] cs[i]) == k;
            assert(key_of(cs[i]) == k);
        } else {
            assert(same_at(t, a, k));
            assert(same_at(a, b, k));
        }
    }
    assert(t.dom() =~= b.dom());
    assert forall|k: Seq<char>| #[trigger] b.contains_key(k) implies t[k] == b[k] || (fingerprint_of(t[k])
        == fingerprint_of(b[k]) && (t[k] == a[k] || Some(t[k]) == modified_content(a[k], b[k]))
        && exists|i: int|
        0 <= i < cs.len() && key_of(#[trigger] cs[i]) == k && cs[i].before is Some
            && cs[i].after is Some) by {
        if exists|i: int| 0 <= i < cs.len() && key_of(#[trigger] cs[i]) == k {
            let i = choose|i: int| 0 <= i < cs.len() && key_of(#[trigger] cs[i]) == k;
            assert(key_of(cs[i]) == k);
        } else {
            assert(same_at(t, a, k));
            assert(same_at(a, b, k));
        }
    }
}

/// Applying again to a tree that already has an entry's result changes
/// nothing: a remove whose file is gone is skipped, an add whose file already
/// holds its bytes writes the same bytes, and a modify whose file already has
/// the after fingerprint leaves it as it is.
pub proof fn lemma_reapply_is_noop(t: Tree, e: PatchEntry, t2: Tree)
    requires
        applies(t, e, t2),
        match e.operation@ {
            OperationModel::Remove => !t.contains_key(e.rel_path@),
            OperationModel::Add(data) => t.contains_key(e.rel_path@) && t[e.rel_path@] == data,
            OperationModel::Modify(d) => t.contains_key(e.rel_path@) && fingerprint_of(
                t[e.rel_path@],
            ) == d.after_hash,
        },
    ensures
        t2 == t,
{
    if let OperationModel::Add(data) = e.operation@ {
        assert(t.insert(e.rel_path@, data) =~= t);
    }
}

proof fn lemma_second_run_prefix(
    cs: Seq<FilePair>,
    es: Seq<PatchEntry>,
    a: Tree,
    b: Tree,
    t: Tree,
    us: Seq<Tree>,
    m: int,
)
    requires
        es.len() == cs.len(),
        forall|i: int| 0 <= i < cs.len() ==> entry_for(#[trigger] es[i], cs[i]),
        snapshots_of(cs, a, b),
        done_up_to(cs, a, b, t, cs.len() as int),
        us.len() == es.len() + 1,
        us[0] == t,
        forall|i: int| 0 <= i < es.len() ==> applies(#[trigger] us[i], es[i], us[i + 1]),
        0 <= m <= es.len(),
    ensures
        us[m] == t,
    decreases m,
{
    if m > 0 {
        let i = m - 1;
        lemma_second_run_prefix(cs, es, a, b, t, us, i);
        let f = cs[i];
        let e = es[i];
        let k = key_of(f);
        assert(entry_for(e, f));
        assert(applies(us[i], e, us[m]));
        assert(holds_side(b, f, true));
        assert(t.contains_key(k) == b.contains_key(k));
        lemma_reapply_is_noop(t, e, us[m]);
    }
}

/// Applying the package a second time, to the tree that the first run left,
/// changes nothing: every remove finds its file gone, every add finds its
/// bytes, and every modify finds the after fingerprint.
pub proof fn lemma_reapply_package_is_noop(
    cs: Seq<FilePair>,
    es: Seq<PatchEntry>,
    a: Tree,
    b: Tree,
    ts: Seq<Tree>,
    us: Seq<Tree>,
)
    requires
        es.len() == cs.len(),
        forall|i: int| 0 <= i < cs.len() ==> entry_for(#[trigger] es[i], cs[i]),
        snapshots_of(cs, a, b),
        ts.len() == es.len() + 1,
        ts[0] == a,
        forall|i: int| 0 <= i < es.len() ==> applies(#[trigger] ts[i], es[i], ts[i + 1]),
        us.len() == es.len() + 1,
        us[0] == ts.last(),
        forall|i: int| 0 <= i < es.len() ==> applies(#[trigger] us[i], es[i], us[i + 1]),
    ensures
        us.last() == ts.last(),
{
    let n = es.len() as int;
    lemma_round_trip_prefix(cs, es, a, b, ts, n);
    assert(ts.last() == ts[n]);
    lemma_second_run_prefix(cs, es, a, b, ts[n], us, n);
}

} // verus!
