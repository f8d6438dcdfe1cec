//! Building a package from the files of two snapshots.

use vstd::prelude::*;

use crate::delta::{build_payload_of, compute_delta, fingerprint_of};
use crate::paths::is_absolute;
use crate::scan::{chars_less, lemma_less_irreflexive, lemma_less_transitive, path_less, strictly_sorted};
use crate::text::{chars_of, replace_backslashes};
use crate::package::{
    forward_slashes, DeltaAlgorithm, DeltaCompression, PatchEntry, PatchError, PatchOperation,
    PatchPackage, PATCH_PACKAGE_VERSION,
};

verus! {

/// One relative path with the file's content in the snapshot before and the
/// snapshot after, where it exists there.
#[derive(Clone, Debug)]
pub struct FilePair {
    pub rel_path: String,
    pub before: Option<Vec<u8>>,
    pub after: Option<Vec<u8>>,
}

/// The path needs an entry: it exists somewhere, and not with the same bytes
/// on both sides.
pub open spec fn is_changed(f: FilePair) -> bool {
    match (f.before, f.after) {
        (Some(a), Some(b)) => a@ != b@,
        (None, None) => false,
        _ => true,
    }
}

/// The pairs that need an entry, in their order.
pub open spec fn changed_files(fs: Seq<FilePair>) -> Seq<FilePair>
    decreases fs.len(),
{
    if fs.len() == 0 {
        Seq::empty()
    } else if is_changed(fs.last()) {
        changed_files(fs.drop_last()).push(fs.last())
    } else {
        changed_files(fs.drop_last())
    }
}

/// `e` is the entry for the changed pair `f`.
pub open spec fn entry_for(e: PatchEntry, f: FilePair) -> bool {
    &&& e.rel_path@ == forward_slashes(f.rel_path@)
    &&& match (f.before, f.after) {
        (Some(a), Some(b)) => e.operation matches PatchOperation::Modify(d) && d.before_hash@
            == fingerprint_of(a@) && d.after_hash@ == fingerprint_of(b@) && d.diff_algorithm
            == DeltaAlgorithm::Rsync020 && d.compress_algorithm == DeltaCompression::Zstd
            && build_payload_of(a@, b@) == Some(d.patch@),
        (Some(_), None) => e.operation is Remove,
        (None, Some(b)) => e.operation matches PatchOperation::Add(data) && data@ == b@,
        (None, None) => false,
    }
}

/// The pair changed in place and the content differ fails on it.
pub open spec fn diff_fails(f: FilePair) -> bool {
    match (f.before, f.after) {
        (Some(a), Some(b)) => a@ != b@ && build_payload_of(a@, b@) is None,
        _ => false,
    }
}

/// The diff of this pair failed, and the error names its path.
pub open spec fn diff_failed_on(e: PatchError, f: FilePair) -> bool {
    &&& diff_fails(f)
    &&& e matches PatchError::DiffFailed(p) && p@ == f.rel_path@
}

/// The entry paths of the pairs (forward slashes), in order.
pub open spec fn entry_paths(fs: Seq<FilePair>) -> Seq<Seq<char>> {
    fs.map_values(|f: FilePair| forward_slashes(f.rel_path@))
}

/// The entry paths are relative and strictly increasing, so each names one
/// file once.
pub open spec fn paths_acceptable(fs: Seq<FilePair>) -> bool {
    &&& strictly_sorted(entry_paths(fs))
    &&& forall|i: int| 0 <= i < fs.len() ==> !is_absolute(#[trigger] entry_paths(fs)[i])
}

/// `e` is what the build reports for the pair at `i`: an absolute path, a
/// path out of order, or a failed diff.
pub open spec fn fails_at(e: PatchError, fs: Seq<FilePair>, i: int) -> bool {
    ||| is_absolute(entry_paths(fs)[i]) && (e matches PatchError::PathEscape(p) && p@
        == fs[i].rel_path@)
    ||| i > 0 && !path_less(entry_paths(fs)[i - 1], entry_paths(fs)[i]) && (e matches PatchError::PathOrder(
        p,
    ) && p@ == fs[i].rel_path@)
    ||| diff_failed_on(e, fs[i])
}

/// `p` is the package built from `fs`: the supported version, and one entry
/// for each changed pair, in order.
pub open spec fn built_from(p: PatchPackage, fs: Seq<FilePair>) -> bool {
    &&& p.version == PATCH_PACKAGE_VERSION
    &&& p.entries@.len() == changed_files(fs).len()
    &&& forall|i: int|
        0 <= i < p.entries@.len() ==> entry_for(#[trigger] p.entries@[i], changed_files(fs)[i])
}

/// Whether two byte strings are equal.
pub fn bytes_equal(a: &[u8], b: &[u8]) -> (r: bool)
    ensures
        r == (a@ == b@),
{
    if a.len() != b.len() {
        return false;
    }
    let mut i: usize = 0;
    while i < a.len()
        invariant
            a@.len() == b@.len(),
            i <= a@.len(),
            forall|j: int| 0 <= j < i ==> a@[j] == b@[j],
        decreases a@.len() - i,
    {
        if a[i] != b[i] {
            return false;
        }
        i = i + 1;
    }
    assert(a@ =~= b@);
    true
}

/// The entry for one path, or none where the path is unchanged.
pub fn classify_file(f: FilePair) -> (r: Result<Option<PatchEntry>, PatchError>)
    ensures
        r matches Ok(None) <==> !is_changed(f),
        r is Err <==> diff_fails(f),
        r matches Ok(Some(e)) ==> entry_for(e, f),
        r matches Err(e) ==> diff_failed_on(e, f),
{
    let FilePair { rel_path, before, after } = f;
    match (before, after) {
        (Some(a), Some(b)) => {
            if bytes_equal(a.as_slice(), b.as_slice()) {
                return Ok(None);
            }
            match compute_delta(a.as_slice(), b.as_slice()) {
                Ok(d) => Ok(Some(PatchEntry::new(PatchOperation::Modify(d), rel_path))),
                Err(_) => Err(PatchError::DiffFailed(rel_path)),
            }
        },
        (Some(_), None) => Ok(Some(PatchEntry::new(PatchOperation::Remove, rel_path))),
        (None, Some(b)) => Ok(Some(PatchEntry::new(PatchOperation::Add(b), rel_path))),
        (None, None) => Ok(None),
    }
}

/// Builds the package for pairs given in increasing order of entry path,
/// each path relative and present once; the entries keep that order.
///
/// Unchanged paths get no entry; every other path gets its entry, in order.
/// The build fails, with nothing returned, exactly where a path is absolute
/// or out of order, or a diff fails; the error names the first such pair.
pub fn build_package(files: Vec<FilePair>) -> (r: Result<PatchPackage, PatchError>)
    ensures
        r matches Ok(p) ==> {
            &&& built_from(p, files@)
            &&& forall|i: int, j: int|
                0 <= i < j < p.entries@.len() ==> path_less(
                    #[trigger] p.entries@[i].rel_path@,
                    #[trigger] p.entries@[j].rel_path@,
                )
            &&& forall|i: int|
                0 <= i < p.entries@.len() ==> !is_absolute(#[trigger] p.entries@[i].rel_path@)
        },
        r is Ok <==> paths_acceptable(files@) && forall|i: int|
            0 <= i < files@.len() ==> !diff_fails(#[trigger] files@[i]),
        r matches Err(e) ==> exists|i: int| 0 <= i < files@.len() && fails_at(e, files@, i),
{
    let mut entries: Vec<PatchEntry> = Vec::new();
    let ghost all = files@;
    let ghost keys = entry_paths(all);
    let mut prev: Vec<char> = Vec::new();
    let mut first = true;
    for f in it: files.into_iter()
        invariant
            it.seq() == all,
            first == (it.index() == 0),
            keys == entry_paths(all),
            it.index() > 0 ==> prev@ == keys[it.index() - 1],
            forall|j: int| 0 <= j < it.index() ==> !diff_fails(#[trigger] all[j]),
            forall|j: int| 0 <= j < it.index() ==> !is_absolute(#[trigger] keys[j]),
            forall|a: int, b: int|
                0 <= a < b < it.index() ==> path_less(#[trigger] keys[a], #[trigger] keys[b]),
            entries@.len() == changed_files(all.take(it.index() as int)).len(),
            forall|j: int|
                0 <= j < entries@.len() ==> entry_for(
                    #[trigger] entries@[j],
                    changed_files(all.take(it.index() as int))[j],
                ),
    {
        let ghost k = it.index() as int;
        assert(all.take(k + 1).drop_last() =~= all.take(k));
        assert(all.take(k + 1).last() == all[k]);
        let key = chars_of(replace_backslashes(f.rel_path.as_str()).as_str());
        assert(key@ == keys[k]);
        if key.len() > 0 && key[0] == '/' {
            assert(fails_at(PatchError::PathEscape(f.rel_path), all, k));
            return Err(PatchError::PathEscape(f.rel_path));
        }
        if !first && !chars_less(&prev, &key) {
            assert(!strictly_sorted(keys)) by {
                assert(!path_less(keys[k - 1], keys[k]));
            }
            assert(fails_at(PatchError::PathOrder(f.rel_path), all, k));
            return Err(PatchError::PathOrder(f.rel_path));
        }
        proof {
            assert forall|a: int, b: int| 0 <= a < b < k + 1 implies path_less(
                #[trigger] keys[a],
                #[trigger] keys[b],
            ) by {
                if b == k && a < k - 1 {
                    lemma_less_transitive(keys[a], keys[k - 1], keys[k]);
                }
            }
        }
        match classify_file(f) {
            Ok(Some(e)) => {
                entries.push(e);
            },
            Ok(None) => {},
            Err(e) => {
                assert(fails_at(e, all, k));
                return Err(e);
            },
        }
        prev = key;
        first = false;
    }
    assert(all.take(all.len() as int) =~= all);
    let p = PatchPackage::new(PATCH_PACKAGE_VERSION, entries);
    assert(built_from(p, all));
    proof {
        lemma_changed_files_sorted(all);
        lemma_changed_files_within(all);
        assert forall|i: int, j: int| 0 <= i < j < p.entries@.len() implies path_less(
            #[trigger] p.entries@[i].rel_path@,
            #[trigger] p.entries@[j].rel_path@,
        ) by {
            assert(entry_paths(changed_files(all))[i] == p.entries@[i].rel_path@);
            assert(entry_paths(changed_files(all))[j] == p.entries@[j].rel_path@);
        }
        assert forall|i: int| 0 <= i < p.entries@.len() implies !is_absolute(
            #[trigger] p.entries@[i].rel_path@,
        ) by {
            let q = choose|q: int| 0 <= q < all.len() && all[q] == #[trigger] changed_files(all)[i];
            assert(keys[q] == p.entries@[i].rel_path@);
        }
    }
    Ok(p)
}

/// Snapshots in which no path changed give a package without entries.
pub proof fn lemma_unchanged_files_need_no_entries(fs: Seq<FilePair>)
    requires
        forall|i: int| 0 <= i < fs.len() ==> !is_changed(#[trigger] fs[i]),
    ensures
        changed_files(fs).len() == 0,
    decreases fs.len(),
{
    if fs.len() > 0 {
        let rest = fs.drop_last();
        assert forall|i: int| 0 <= i < rest.len() implies !is_changed(#[trigger] rest[i]) by {
            assert(rest[i] == fs[i]);
        }
        lemma_unchanged_files_need_no_entries(rest);
        assert(!is_changed(fs[fs.len() - 1]));
    }
}

proof fn lemma_entry_for_is_unique(e1: PatchEntry, e2: PatchEntry, f: FilePair)
    requires
        entry_for(e1, f),
        entry_for(e2, f),
    ensures
        e1@ == e2@,
{
}

/// Two builds from the same pairs give the same package, and so the same
/// bytes.
pub proof fn lemma_builds_are_reproducible(p1: PatchPackage, p2: PatchPackage, fs: Seq<FilePair>)
    requires
        built_from(p1, fs),
        built_from(p2, fs),
    ensures
        p1@ == p2@,
{
    assert forall|i: int| 0 <= i < p1.entries@.len() implies p1.entries@[i]@ == p2.entries@[i]@ by {
        lemma_entry_for_is_unique(p1.entries@[i], p2.entries@[i], changed_files(fs)[i]);
    }
    assert(p1@.entries =~= p2@.entries);
}

proof fn lemma_changed_files_within(fs: Seq<FilePair>)
    ensures
        forall|i: int|
            0 <= i < changed_files(fs).len() ==> is_changed(#[trigger] changed_files(fs)[i]) && exists|j: int|
                0 <= j < fs.len() && fs[j] == changed_files(fs)[i],
    decreases fs.len(),
{
    if fs.len() > 0 {
        let rest = fs.drop_last();
        lemma_changed_files_within(rest);
        assert forall|i: int| 0 <= i < changed_files(fs).len() implies is_changed(
            #[trigger] changed_files(fs)[i],
        ) && exists|j: int| 0 <= j < fs.len() && fs[j] == changed_files(fs)[i] by {
            if i < changed_files(rest).len() {
                let j = choose|j: int| 0 <= j < rest.len() && rest[j] == changed_files(rest)[i];
                assert(fs[j] == rest[j]);
            } else {
                assert(fs[fs.len() - 1] == changed_files(fs)[i]);
            }
        }
    }
}

proof fn lemma_changed_files_sorted(fs: Seq<FilePair>)
    requires
        strictly_sorted(entry_paths(fs)),
    ensures
        strictly_sorted(entry_paths(changed_files(fs))),
    decreases fs.len(),
{
    if fs.len() > 0 {
        let rest = fs.drop_last();
        assert(strictly_sorted(entry_paths(rest))) by {
            assert forall|i: int, j: int| 0 <= i < j < entry_paths(rest).len() implies path_less(
                #[trigger] entry_paths(rest)[i],
                #[trigger] entry_paths(rest)[j],
            ) by {
                assert(entry_paths(rest)[i] == entry_paths(fs)[i]);
                assert(entry_paths(rest)[j] == entry_paths(fs)[j]);
            }
        }
        lemma_changed_files_sorted(rest);
        lemma_changed_files_within(rest);
        let cr = changed_files(rest);
        let c = changed_files(fs);
        if is_changed(fs.last()) {
            assert forall|i: int, j: int| 0 <= i < j < entry_paths(c).len() implies path_less(
                #[trigger] entry_paths(c)[i],
                #[trigger] entry_paths(c)[j],
            ) by {
                if j < cr.len() {
                    assert(entry_paths(c)[i] == entry_paths(cr)[i]);
                    assert(entry_paths(c)[j] == entry_paths(cr)[j]);
                } else {
                    let k = choose|k: int| 0 <= k < rest.len() && rest[k] == #[trigger] cr[i];
                    assert(entry_paths(fs)[k] == forward_slashes(cr[i].rel_path@));
                    assert(entry_paths(fs)[fs.len() - 1] == forward_slashes(fs.last().rel_path@));
                }
            }
        }
    }
}

/// A path that did not change gets no entry: no entry of the package built
/// from the pairs has its entry path.
pub proof fn lemma_unchanged_path_has_no_entry(p: PatchPackage, fs: Seq<FilePair>, i: int)
    requires
        built_from(p, fs),
        paths_acceptable(fs),
        0 <= i < fs.len(),
        !is_changed(fs[i]),
    ensures
        forall|j: int|
            0 <= j < p.entries@.len() ==> #[trigger] p.entries@[j].rel_path@ != entry_paths(fs)[i],
{
    lemma_changed_files_within(fs);
    assert forall|j: int| 0 <= j < p.entries@.len() implies #[trigger] p.entries@[j].rel_path@
        != entry_paths(fs)[i] by {
        let c = changed_files(fs)[j];
        assert(is_changed(c));
        let q = choose|q: int| 0 <= q < fs.len() && fs[q] == c;
        assert(q != i);
        assert(p.entries@[j].rel_path@ == entry_paths(fs)[q]);
        lemma_less_irreflexive(entry_paths(fs)[i]);
        if q < i {
            assert(path_less(entry_paths(fs)[q], entry_paths(fs)[i]));
        } else {
            assert(path_less(entry_paths(fs)[i], entry_paths(fs)[q]));
        }
    }
}

} // verus!
